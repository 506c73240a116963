use bytebarrage::directory::Directory;
use bytebarrage::discovery::client::{handle_packet as client_handle_packet, query_pieces, DiscoveredPieces};
use bytebarrage::discovery::proto::{discovery_addr, Codec, Msg, PeerAddr, ServerPieceRef};
use bytebarrage::discovery::server::handle_packet as server_handle_packet;
use bytebarrage::manifest::Manifest;
use bytebarrage::piece::PieceRef;

fn v4(a: u8, b: u8, c: u8, d: u8, port: u16) -> PeerAddr {
    PeerAddr {
        is_ipv6: false,
        ip: u32::from_be_bytes([a, b, c, d]) as u128,
        port,
        flowinfo: 0,
        scope_id: 0,
    }
}

fn sorted(mut v: Vec<PeerAddr>) -> Vec<PeerAddr> {
    v.sort_by_key(|a| (a.ip, a.port));
    v
}

#[test]
fn discovery_address_is_ipv4_broadcast() {
    assert_eq!(discovery_addr(), v4(255, 255, 255, 255, 36936));
}

#[test]
fn codec_appends_message_and_sends_to_discovery_address() {
    let mut codec = Codec;
    let mut buf = vec![1u8];
    let to = codec.encode(&[2, 3], &mut buf);
    assert_eq!(buf, vec![1, 2, 3]);
    assert_eq!(to, discovery_addr());
}

#[test]
fn unknown_piece_has_no_peers() {
    let d = DiscoveredPieces::new();
    assert!(d.get_piece_peers(&PieceRef::for_buffer(b"p")).is_empty());
}

#[test]
fn offered_peers_are_recorded_once() {
    let p = PieceRef::for_buffer(b"p");
    let a = v4(10, 0, 0, 1, 1000);
    let b = v4(10, 0, 0, 2, 1000);
    let mut d = DiscoveredPieces::new();
    d.add_piece_peer(&p, &[a, b, a]);
    d.add_piece_peer(&p, &[b]);
    assert_eq!(sorted(d.get_piece_peers(&p)), vec![a, b]);
    assert!(d.get_piece_peers(&PieceRef::for_buffer(b"q")).is_empty());
}

#[test]
fn blacklisted_peer_is_never_offered_again() {
    let p = PieceRef::for_buffer(b"p");
    let q = PieceRef::for_buffer(b"q");
    let a = v4(10, 0, 0, 1, 1000);
    let b = v4(10, 0, 0, 2, 1000);
    let mut d = DiscoveredPieces::new();
    d.add_piece_peer(&p, &[a, b]);
    d.remove_piece_peer(&p, &a);
    assert_eq!(d.get_piece_peers(&p), vec![b]);
    d.add_piece_peer(&p, &[a]);
    assert_eq!(d.get_piece_peers(&p), vec![b]);
    d.add_piece_peer(&q, &[a]);
    assert_eq!(d.get_piece_peers(&q), vec![a]);
}

#[test]
fn blacklisting_before_any_offer_still_counts() {
    let p = PieceRef::for_buffer(b"p");
    let a = v4(192, 168, 1, 1, 80);
    let mut d = DiscoveredPieces::new();
    d.remove_piece_peer(&p, &a);
    d.add_piece_peer(&p, &[a]);
    assert!(d.get_piece_peers(&p).is_empty());
}

#[test]
fn queries_go_out_in_queue_order() {
    let p = PieceRef::for_buffer(b"p");
    let q = PieceRef::for_buffer(b"q");
    let mut d = DiscoveredPieces::new();
    assert!(query_pieces(&mut d).is_none());
    d.enqueue_piece(p);
    d.enqueue_piece(q);
    match query_pieces(&mut d) {
        Some(Msg::Find(r)) => assert_eq!(r, p),
        _ => panic!("expected a request for p"),
    }
    assert_eq!(d.dequeue_piece(), Some(q));
    assert_eq!(d.dequeue_piece(), None);
}

#[test]
fn client_records_server_answers_only() {
    let p = PieceRef::for_buffer(b"p");
    let a = v4(10, 1, 1, 1, 9);
    let mut d = DiscoveredPieces::new();
    client_handle_packet(&mut d, Msg::Find(p));
    assert!(d.get_piece_peers(&p).is_empty());
    client_handle_packet(&mut d, Msg::ServerHas(ServerPieceRef { addrs: vec![a], piece: p }));
    assert_eq!(d.get_piece_peers(&p), vec![a]);
}

#[test]
fn server_answers_requests_for_its_pieces() {
    let data = b"content".to_vec();
    let m = Manifest::for_contents(None, &data);
    let mut dir = Directory::new();
    dir.add_manifest(b"file", &m);
    let held = PieceRef::for_buffer(&data);
    let other = PieceRef::for_buffer(b"missing");
    let addrs = vec![v4(10, 0, 0, 7, 36936)];
    match server_handle_packet(&dir, &addrs, Msg::Find(held)) {
        Some(Msg::ServerHas(r)) => {
            assert_eq!(r.piece, held);
            assert_eq!(r.addrs, addrs);
        }
        _ => panic!("expected an answer"),
    }
    assert!(server_handle_packet(&dir, &addrs, Msg::Find(other)).is_none());
    let answer = Msg::ServerHas(ServerPieceRef { addrs: addrs.clone(), piece: held });
    assert!(server_handle_packet(&dir, &addrs, answer).is_none());
}

#[test]
fn peers_are_offered_minus_failed_over_any_order() {
    let p = PieceRef::for_buffer(b"p");
    let a = v4(10, 0, 0, 1, 1);
    let b = v4(10, 0, 0, 2, 1);
    let c = v4(10, 0, 0, 3, 1);
    let mut d = DiscoveredPieces::new();
    d.remove_piece_peer(&p, &c);
    d.add_piece_peer(&p, &[a, b, c]);
    d.remove_piece_peer(&p, &a);
    d.add_piece_peer(&p, &[a]);
    assert_eq!(d.get_piece_peers(&p), vec![b]);
}
