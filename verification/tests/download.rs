use bytebarrage::directory::Directory;
use bytebarrage::discovery::client::DiscoveredPieces;
use bytebarrage::discovery::proto::PeerAddr;
use bytebarrage::download::client::{
    contents_reply, defer_piece, next_step, query_reply, queue_pieces, skip_valid_pieces, ContentsOutcome, DownloadStep,
};
use bytebarrage::download::proto::{ClientMsg, ServerMsg};
use bytebarrage::download::server::{piece_in_file, DownloadServer, ServerAction};
use bytebarrage::manifest::{Manifest, ManifestPieceRef};
use bytebarrage::piece::PieceRef;
use std::collections::VecDeque;

fn peer(last: u8) -> PeerAddr {
    PeerAddr { is_ipv6: false, ip: 0x0a00_0000 | last as u128, port: 36936, flowinfo: 0, scope_id: 0 }
}

fn piece_of(data: &[u8], from: u64) -> ManifestPieceRef {
    ManifestPieceRef { from, len: data.len() as u64, piece: PieceRef::for_buffer(data) }
}

#[test]
fn skip_valid_pieces_keeps_only_damaged_ones() {
    let a = piece_of(b"aaaa", 0);
    let b = piece_of(b"bbbb", 4);
    let c = piece_of(b"cccc", 8);
    let contents = vec![b"aaaa".to_vec(), b"xxxx".to_vec(), vec![0u8; 4]];
    let out = skip_valid_pieces(&[a, b, c], &contents);
    assert_eq!(out.len(), 2);
    assert_eq!(out[0].from, 4);
    assert_eq!(out[1].from, 8);
}

#[test]
fn queue_pieces_enqueues_every_piece_for_discovery() {
    let a = piece_of(b"a", 0);
    let b = piece_of(b"b", 1);
    let mut d = DiscoveredPieces::new();
    let q = queue_pieces(&mut d, vec![a, b]);
    assert_eq!(q.len(), 2);
    assert_eq!(q[0].from, 0);
    assert_eq!(d.dequeue_piece(), Some(a.piece));
    assert_eq!(d.dequeue_piece(), Some(b.piece));
    assert_eq!(d.dequeue_piece(), None);
}

#[test]
fn next_step_follows_the_queue_and_the_peers() {
    let a = piece_of(b"a", 0);
    let b = piece_of(b"b", 1);
    let mut d = DiscoveredPieces::new();
    d.add_piece_peer(&b.piece, &[peer(1)]);
    let mut q: VecDeque<ManifestPieceRef> = VecDeque::from(vec![a, b]);
    match next_step(&mut q, &d) {
        DownloadStep::WaitForPeers(p) => assert_eq!(p.from, 0),
        _ => panic!("no peer holds a"),
    }
    match next_step(&mut q, &d) {
        DownloadStep::Query(p, peers) => {
            assert_eq!(p.from, 1);
            assert_eq!(peers, vec![peer(1)]);
        }
        _ => panic!("a peer holds b"),
    }
    assert!(matches!(next_step(&mut q, &d), DownloadStep::Finished));
}

#[test]
fn query_reply_accepts_holders_and_blacklists_others() {
    let a = piece_of(b"a", 0);
    let mut d = DiscoveredPieces::new();
    d.add_piece_peer(&a.piece, &[peer(1), peer(2), peer(3)]);
    assert!(query_reply(&mut d, &a, &peer(1), &ClientMsg::QueryResult(true)));
    assert!(!query_reply(&mut d, &a, &peer(2), &ClientMsg::QueryResult(false)));
    assert!(!query_reply(&mut d, &a, &peer(3), &ClientMsg::Contents(vec![])));
    assert_eq!(d.get_piece_peers(&a.piece), vec![peer(1)]);
}

#[test]
fn contents_reply_writes_matching_content_only() {
    let a = piece_of(b"payload", 42);
    let mut d = DiscoveredPieces::new();
    d.add_piece_peer(&a.piece, &[peer(1), peer(2)]);
    match contents_reply(&mut d, &a, &peer(1), ClientMsg::Contents(b"payload".to_vec())) {
        ContentsOutcome::Write { offset, data } => {
            assert_eq!(offset, 42);
            assert_eq!(data, b"payload".to_vec());
        }
        _ => panic!("content matches"),
    }
    assert!(matches!(contents_reply(&mut d, &a, &peer(2), ClientMsg::Contents(b"bad".to_vec())), ContentsOutcome::Damaged));
    assert_eq!(d.get_piece_peers(&a.piece), vec![peer(1)]);
    assert!(matches!(contents_reply(&mut d, &a, &peer(1), ClientMsg::QueryResult(true)), ContentsOutcome::Unexpected));
    assert_eq!(d.get_piece_peers(&a.piece), vec![peer(1)]);
}

#[test]
fn deferred_piece_goes_back_to_both_queues() {
    let a = piece_of(b"a", 0);
    let mut d = DiscoveredPieces::new();
    let mut q: VecDeque<ManifestPieceRef> = VecDeque::new();
    defer_piece(&mut q, &mut d, a);
    assert_eq!(q.len(), 1);
    assert_eq!(d.dequeue_piece(), Some(a.piece));
}

#[test]
fn server_answers_queries_and_serves_known_pieces() {
    let data = b"served".to_vec();
    let m = Manifest::for_contents(None, &data);
    let mut dir = Directory::new();
    dir.add_manifest(b"/data/x", &m);
    let server = DownloadServer { directory: dir };
    let held = PieceRef::for_buffer(&data);
    let other = PieceRef::for_buffer(b"none");
    assert!(matches!(server.call(&ServerMsg::Query(held)), ServerAction::Reply(ClientMsg::QueryResult(true))));
    assert!(matches!(server.call(&ServerMsg::Query(other)), ServerAction::Reply(ClientMsg::QueryResult(false))));
    match server.call(&ServerMsg::Get(held)) {
        ServerAction::ReadPiece(p) => {
            assert_eq!((p.from, p.len, p.file.as_slice()), (0, 6, &b"/data/x"[..]));
            assert!(piece_in_file(&p, 6));
            assert!(piece_in_file(&p, 100));
            assert!(!piece_in_file(&p, 5));
        }
        _ => panic!("piece is held"),
    }
    match server.call(&ServerMsg::Get(other)) {
        ServerAction::UnknownPiece(r) => assert_eq!(r, other),
        _ => panic!("piece is not held"),
    }
}
