use std::collections::VecDeque;
use vstd::prelude::*;

use crate::discovery::client::{piece_view, with_blacklisted, DiscoveredPieces};
use crate::discovery::proto::PeerAddr;
use crate::download::proto::ClientMsg;
use crate::manifest::ManifestPieceRef;
use crate::piece::blake2b_512;

verus! {

/// The pieces of `pieces` whose content in `contents` (at the same position) does
/// not match their reference, in order.
pub open spec fn invalid_pieces(pieces: Seq<ManifestPieceRef>, contents: Seq<Seq<u8>>) -> Seq<ManifestPieceRef>
    decreases pieces.len(),
{
    if pieces.len() == 0 {
        Seq::empty()
    } else {
        let rest = invalid_pieces(pieces.drop_last(), contents);
        let p = pieces.last();
        if p.piece@ == blake2b_512(contents[pieces.len() - 1]) {
            rest
        } else {
            rest.push(p)
        }
    }
}

/// The bytes of each buffer of `contents`.
pub open spec fn content_views(contents: Seq<Vec<u8>>) -> Seq<Seq<u8>> {
    contents.map_values(|c: Vec<u8>| c@)
}

/// `out` is made of the pieces of `pieces` at positions `idx`, in increasing order,
/// and those positions are exactly the ones whose content in `contents` does not
/// match the piece's reference.
pub open spec fn selects_mismatches(
    out: Seq<ManifestPieceRef>,
    pieces: Seq<ManifestPieceRef>,
    contents: Seq<Seq<u8>>,
    idx: Seq<int>,
) -> bool {
    &&& idx.len() == out.len()
    &&& forall|j: int| 0 <= j < idx.len() ==> 0 <= #[trigger] idx[j] < pieces.len() && out[j] == pieces[idx[j]]
    &&& forall|j: int, k: int| 0 <= j < k < idx.len() ==> #[trigger] idx[j] < #[trigger] idx[k]
    &&& forall|i: int| 0 <= i < pieces.len() ==> (#[trigger] pieces[i].piece@ != blake2b_512(contents[i]) <==> idx.contains(i))
}

/// The pieces still to download are the pieces whose content does not match their
/// reference, every one of them, the first included, and no other, in manifest order.
pub proof fn lemma_invalid_pieces_selects(pieces: Seq<ManifestPieceRef>, contents: Seq<Seq<u8>>) -> (idx: Seq<int>)
    ensures
        selects_mismatches(invalid_pieces(pieces, contents), pieces, contents, idx),
    decreases pieces.len(),
{
    if pieces.len() == 0 {
        Seq::empty()
    } else {
        let n = pieces.len() - 1;
        let prev = pieces.drop_last();
        let pidx = lemma_invalid_pieces_selects(prev, contents);
        let rest = invalid_pieces(prev, contents);
        let out = invalid_pieces(pieces, contents);
        assert forall|i: int| 0 <= i < n implies #[trigger] pieces[i] == prev[i] by {}
        if pieces[n].piece@ == blake2b_512(contents[n]) {
            assert forall|i: int| 0 <= i < pieces.len() implies (#[trigger] pieces[i].piece@ != blake2b_512(contents[i]) <==> pidx.contains(i)) by {
                if i < n {
                    assert(prev[i] == pieces[i]);
                } else {
                    if pidx.contains(i) {
                        let j = choose|j: int| 0 <= j < pidx.len() && pidx[j] == i;
                        assert(0 <= pidx[j] < prev.len());
                    }
                }
            }
            assert forall|j: int| 0 <= j < pidx.len() implies 0 <= #[trigger] pidx[j] < pieces.len() && out[j] == pieces[pidx[j]] by {
                assert(prev[pidx[j]] == pieces[pidx[j]]);
            }
            pidx
        } else {
            let idx = pidx.push(n);
            assert(out == rest.push(pieces[n]));
            assert forall|i: int| 0 <= i < pieces.len() implies (#[trigger] pieces[i].piece@ != blake2b_512(contents[i]) <==> idx.contains(i)) by {
                if i < n {
                    assert(prev[i] == pieces[i]);
                    if idx.contains(i) {
                        let j = choose|j: int| 0 <= j < idx.len() && idx[j] == i;
                        assert(j < pidx.len());
                        assert(pidx[j] == i);
                    }
                    if pidx.contains(i) {
                        let j = choose|j: int| 0 <= j < pidx.len() && pidx[j] == i;
                        assert(idx[j] == i);
                    }
                } else {
                    assert(idx[pidx.len() as int] == n);
                }
            }
            assert forall|j: int| 0 <= j < idx.len() implies 0 <= #[trigger] idx[j] < pieces.len() && out[j] == pieces[idx[j]] by {
                if j < pidx.len() {
                    assert(idx[j] == pidx[j]);
                    assert(prev[pidx[j]] == pieces[pidx[j]]);
                }
            }
            assert forall|j: int, k: int| 0 <= j < k < idx.len() implies #[trigger] idx[j] < #[trigger] idx[k] by {
                if k < pidx.len() {
                    assert(idx[j] == pidx[j] && idx[k] == pidx[k]);
                } else {
                    assert(idx[j] == pidx[j]);
                    assert(pidx[j] < prev.len());
                }
            }
            idx
        }
    }
}

/// The pieces that still have to be downloaded: those whose bytes `contents[i]`,
/// as found in the output file, do not match their reference.
pub fn skip_valid_pieces(pieces: &[ManifestPieceRef], contents: &[Vec<u8>]) -> (out: Vec<ManifestPieceRef>)
    requires
        pieces@.len() == contents@.len(),
    ensures
        out@ == invalid_pieces(pieces@, content_views(contents@)),
        exists|idx: Seq<int>| #[trigger] selects_mismatches(out@, pieces@, content_views(contents@), idx),
{
    let ghost views = content_views(contents@);
    let mut out: Vec<ManifestPieceRef> = Vec::new();
    let mut i: usize = 0;
    while i < pieces.len()
        invariant
            pieces@.len() == contents@.len(),
            views == content_views(contents@),
            0 <= i <= pieces@.len(),
            out@ == invalid_pieces(pieces@.subrange(0, i as int), views),
        decreases pieces@.len() - i,
    {
        let piece = pieces[i];
        assert(pieces@.subrange(0, i + 1).drop_last() =~= pieces@.subrange(0, i as int));
        assert(views[i as int] == contents@[i as int]@);
        if !piece.verify(contents[i].as_slice()) {
            out.push(piece);
        }
        i = i + 1;
    }
    assert(pieces@.subrange(0, pieces@.len() as int) =~= pieces@);
    proof {
        let idx = lemma_invalid_pieces_selects(pieces@, views);
        assert(selects_mismatches(out@, pieces@, views, idx));
    }
    out
}

/// Puts the pieces still to download in a queue, and asks discovery to look for each.
pub fn queue_pieces(discovery: &mut DiscoveredPieces, pieces: Vec<ManifestPieceRef>) -> (queue: VecDeque<ManifestPieceRef>)
    ensures
        queue@ == pieces@,
        final(discovery)@.pieces == old(discovery)@.pieces,
        final(discovery)@.queue == old(discovery)@.queue + pieces@.map_values(|p: ManifestPieceRef| p.piece),
{
    let mut queue: VecDeque<ManifestPieceRef> = VecDeque::new();
    let mut i: usize = 0;
    while i < pieces.len()
        invariant
            0 <= i <= pieces@.len(),
            queue@ == pieces@.subrange(0, i as int),
            discovery@.pieces == old(discovery)@.pieces,
            discovery@.queue == old(discovery)@.queue + pieces@.subrange(0, i as int).map_values(|p: ManifestPieceRef| p.piece),
        decreases pieces@.len() - i,
    {
        let p = pieces[i];
        queue.push_back(p);
        discovery.enqueue_piece(p.piece);
        i = i + 1;
        assert(queue@ =~= pieces@.subrange(0, i as int));
        assert(pieces@.subrange(0, i as int).map_values(|p: ManifestPieceRef| p.piece)
            =~= pieces@.subrange(0, i - 1).map_values(|p: ManifestPieceRef| p.piece).push(p.piece));
    }
    assert(pieces@.subrange(0, pieces@.len() as int) =~= pieces@);
    queue
}

/// What the download does next.
pub enum DownloadStep {
    /// No piece is left: the download is complete.
    Finished,
    /// No peer is known to hold `piece`: wait a while, then defer it.
    WaitForPeers(ManifestPieceRef),
    /// Ask each of `peers` whether it holds `piece`, and get it from the first that does.
    Query(ManifestPieceRef, Vec<PeerAddr>),
}

/// Takes the next piece off the queue and decides how to fetch it.
pub fn next_step(queue: &mut VecDeque<ManifestPieceRef>, discovery: &DiscoveredPieces) -> (step: DownloadStep)
    ensures
        old(queue)@.len() == 0 ==> step is Finished && final(queue)@ == old(queue)@,
        old(queue)@.len() > 0 ==> {
            &&& final(queue)@ == old(queue)@.drop_first()
            &&& match step {
                DownloadStep::WaitForPeers(p) => p == old(queue)@[0]
                    && piece_view(discovery@.pieces, p.piece@).peers.is_empty(),
                DownloadStep::Query(p, peers) => p == old(queue)@[0]
                    && peers@.no_duplicates()
                    && peers@.len() > 0
                    && peers@.to_set() == piece_view(discovery@.pieces, p.piece@).peers,
                DownloadStep::Finished => false,
            }
        },
{
    match queue.pop_front() {
        None => DownloadStep::Finished,
        Some(piece) => {
            let peers = discovery.get_piece_peers(&piece.piece);
            if peers.len() == 0 {
                assert(peers@ =~= Seq::<PeerAddr>::empty());
                assert(peers@.to_set() =~= Set::<PeerAddr>::empty());
                DownloadStep::WaitForPeers(piece)
            } else {
                assert(peers@.to_set().contains(peers@[0]));
                DownloadStep::Query(piece, peers)
            }
        },
    }
}

/// Takes in the reply of the peer at `addr` to the question whether it holds `piece`.
/// Only a reply that it does accepts the peer; any other reply blacklists it for the piece.
pub fn query_reply(discovery: &mut DiscoveredPieces, piece: &ManifestPieceRef, addr: &PeerAddr, reply: &ClientMsg) -> (accepted: bool)
    ensures
        accepted == (*reply == ClientMsg::QueryResult(true)),
        final(discovery)@.queue == old(discovery)@.queue,
        accepted ==> final(discovery)@.pieces == old(discovery)@.pieces,
        !accepted ==> final(discovery)@.pieces == old(discovery)@.pieces.insert(
            piece.piece@,
            with_blacklisted(piece_view(old(discovery)@.pieces, piece.piece@), *addr),
        ),
{
    match reply {
        ClientMsg::QueryResult(true) => true,
        _ => {
            discovery.remove_piece_peer(&piece.piece, addr);
            false
        },
    }
}

/// What to do with the content that a peer sent for a piece.
pub enum ContentsOutcome {
    /// The content matches: write `data` at offset `offset` of the output file.
    Write { offset: u64, data: Vec<u8> },
    /// The content does not match the piece's reference.
    Damaged,
    /// The peer sent no content.
    Unexpected,
}

/// Takes in the reply of the peer at `addr` to a request for the content of `piece`.
/// Content that matches the piece's reference is written where the piece lies; a peer
/// that sends other content is blacklisted for the piece.
pub fn contents_reply(discovery: &mut DiscoveredPieces, piece: &ManifestPieceRef, addr: &PeerAddr, reply: ClientMsg) -> (outcome: ContentsOutcome)
    ensures
        final(discovery)@.queue == old(discovery)@.queue,
        match reply {
            ClientMsg::Contents(buf) => if piece.piece@ == blake2b_512(buf@) {
                &&& outcome matches ContentsOutcome::Write { offset, data } && offset == piece.from && data@ == buf@
                &&& final(discovery)@.pieces == old(discovery)@.pieces
            } else {
                &&& outcome is Damaged
                &&& final(discovery)@.pieces == old(discovery)@.pieces.insert(
                    piece.piece@,
                    with_blacklisted(piece_view(old(discovery)@.pieces, piece.piece@), *addr),
                )
            },
            ClientMsg::QueryResult(_) => outcome is Unexpected && final(discovery)@.pieces == old(discovery)@.pieces,
        },
{
    match reply {
        ClientMsg::Contents(buf) => {
            if piece.verify(buf.as_slice()) {
                ContentsOutcome::Write { offset: piece.from, data: buf }
            } else {
                discovery.remove_piece_peer(&piece.piece, addr);
                ContentsOutcome::Damaged
            }
        },
        ClientMsg::QueryResult(_) => ContentsOutcome::Unexpected,
    }
}

/// Puts a piece that could not be fetched back at the end of the queue, and asks
/// discovery to look for it again.
pub fn defer_piece(queue: &mut VecDeque<ManifestPieceRef>, discovery: &mut DiscoveredPieces, piece: ManifestPieceRef)
    ensures
        final(queue)@ == old(queue)@.push(piece),
        final(discovery)@.pieces == old(discovery)@.pieces,
        final(discovery)@.queue == old(discovery)@.queue.push(piece.piece),
{
    queue.push_back(piece);
    discovery.enqueue_piece(piece.piece);
}

} // verus!
