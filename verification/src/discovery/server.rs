use vstd::prelude::*;

use crate::directory::Directory;
use crate::discovery::proto::{copy_addrs, Msg, PeerAddr, ServerPieceRef};

verus! {

/// The answer of a server at the addresses `addrs` to a discovery message: a request
/// for a piece of `directory` is answered with the server's addresses; a request for
/// any other piece, and any message that is no request, goes unanswered.
pub fn handle_packet(directory: &Directory, addrs: &[PeerAddr], msg: Msg) -> (reply: Option<Msg>)
    ensures
        match msg {
            Msg::Find(piece) => if directory@.dom().contains(piece@) {
                reply matches Some(Msg::ServerHas(r)) && r.piece == piece && r.addrs@ == addrs@
            } else {
                reply is None
            },
            Msg::ServerHas(_) => reply is None,
        },
{
    match msg {
        Msg::Find(piece) => {
            if directory.find_piece(&piece).is_some() {
                Some(Msg::ServerHas(ServerPieceRef { addrs: copy_addrs(addrs), piece }))
            } else {
                None
            }
        },
        Msg::ServerHas(_) => None,
    }
}

} // verus!
