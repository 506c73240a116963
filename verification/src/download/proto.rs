use vstd::prelude::*;

use crate::piece::PieceRef;

verus! {

/// A request to a download server.
#[derive(Debug, Clone, Copy)]
pub enum ServerMsg {
    /// Does the server hold this piece?
    Query(PieceRef),
    /// Send the content of this piece.
    Get(PieceRef),
}

/// A download server's reply.
#[derive(Debug, Clone)]
pub enum ClientMsg {
    /// Whether the server holds the piece asked about.
    QueryResult(bool),
    /// The content of the piece asked for.
    Contents(Vec<u8>),
}

/// The request-reply protocol between download clients and servers, in which each
/// message travels as one MessagePack value.
pub struct DownloadProto;

} // verus!
