use vstd::prelude::*;

use crate::directory::{Directory, DirectoryPieceRef};
use crate::download::proto::{ClientMsg, ServerMsg};
use crate::piece::PieceRef;

verus! {

/// A download server, which serves the pieces of a directory.
pub struct DownloadServer {
    pub directory: Directory,
}

/// What a download server does with a request.
pub enum ServerAction {
    /// Send this reply.
    Reply(ClientMsg),
    /// Read the piece from where the directory says it lies, and send its content.
    ReadPiece(DirectoryPieceRef),
    /// Fail the request: the piece is not in the directory.
    UnknownPiece(PieceRef),
}

impl DownloadServer {
    /// How the server answers `req`: a query is answered by whether the directory holds
    /// the piece; a request for content is served from where the directory says the
    /// piece lies, or refused when the directory does not hold it.
    pub fn call(&self, req: &ServerMsg) -> (action: ServerAction)
        ensures
            match *req {
                ServerMsg::Query(r) => action matches ServerAction::Reply(ClientMsg::QueryResult(b))
                    && b == self.directory@.dom().contains(r@),
                ServerMsg::Get(r) => if self.directory@.dom().contains(r@) {
                    action matches ServerAction::ReadPiece(d) && d@ == self.directory@[r@]
                } else {
                    action == ServerAction::UnknownPiece(r)
                },
            },
    {
        match *req {
            ServerMsg::Query(r) => ServerAction::Reply(ClientMsg::QueryResult(self.directory.find_piece(&r).is_some())),
            ServerMsg::Get(r) => match self.directory.find_piece(&r) {
                Some(d) => ServerAction::ReadPiece(d),
                None => ServerAction::UnknownPiece(r),
            },
        }
    }
}

/// Whether a file of `file_len` bytes still holds all of `piece`; when it has shrunk
/// below the piece's end, the server sends empty content, which the client rejects.
pub fn piece_in_file(piece: &DirectoryPieceRef, file_len: u64) -> (fits: bool)
    requires
        piece.from + piece.len <= u64::MAX,
    ensures
        fits == (file_len >= piece.from + piece.len),
{
    file_len >= piece.from + piece.len
}

} // verus!
