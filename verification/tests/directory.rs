use bytebarrage::directory::Directory;
use bytebarrage::manifest::{Manifest, ManifestPieceRef};
use bytebarrage::piece::PieceRef;

#[test]
fn new_directory_finds_nothing() {
    let d = Directory::new();
    assert!(d.find_piece(&PieceRef::for_buffer(b"x")).is_none());
}

#[test]
fn added_manifest_pieces_are_found_in_its_file() {
    let data = b"0123456789".to_vec();
    let m = Manifest::for_contents(Some("f".to_string()), &data);
    let mut d = Directory::new();
    d.add_manifest(b"/srv/f", &m);
    let found = d.find_piece(&PieceRef::for_buffer(&data)).unwrap();
    assert_eq!(found.from, 0);
    assert_eq!(found.len, 10);
    assert_eq!(found.file, b"/srv/f".to_vec());
    assert_eq!(found.reference, PieceRef::for_buffer(&data));
    assert!(d.find_piece(&PieceRef::for_buffer(b"other")).is_none());
}

#[test]
fn last_piece_with_a_reference_wins() {
    let p = PieceRef::for_buffer(b"same");
    let q = PieceRef::for_buffer(b"other");
    let mut m = Manifest::empty(None);
    m.pieces.push(ManifestPieceRef { from: 0, len: 4, piece: p });
    m.pieces.push(ManifestPieceRef { from: 4, len: 5, piece: q });
    m.pieces.push(ManifestPieceRef { from: 9, len: 4, piece: p });
    let mut d = Directory::new();
    d.add_manifest(b"a", &m);
    assert_eq!(d.find_piece(&p).unwrap().from, 9);
    assert_eq!(d.find_piece(&q).unwrap().from, 4);
}

#[test]
fn later_manifest_replaces_and_keeps_others() {
    let p = PieceRef::for_buffer(b"shared");
    let q = PieceRef::for_buffer(b"only in first");
    let mut m1 = Manifest::empty(None);
    m1.pieces.push(ManifestPieceRef { from: 0, len: 6, piece: p });
    m1.pieces.push(ManifestPieceRef { from: 6, len: 13, piece: q });
    let mut m2 = Manifest::empty(None);
    m2.pieces.push(ManifestPieceRef { from: 100, len: 6, piece: p });
    let mut d = Directory::new();
    d.add_manifest(b"first", &m1);
    d.add_manifest(b"second", &m2);
    let found = d.find_piece(&p).unwrap();
    assert_eq!((found.from, found.file.as_slice()), (100, &b"second"[..]));
    let kept = d.find_piece(&q).unwrap();
    assert_eq!((kept.from, kept.file.as_slice()), (6, &b"first"[..]));
}

#[test]
fn duplicate_has_the_same_entries() {
    let data = b"abcdef".to_vec();
    let m = Manifest::for_contents(None, &data);
    let mut d = Directory::new();
    d.add_manifest(b"x", &m);
    let copy = d.duplicate();
    let found = copy.find_piece(&PieceRef::for_buffer(&data)).unwrap();
    assert_eq!((found.from, found.len, found.file.as_slice()), (0, 6, &b"x"[..]));
    assert!(copy.find_piece(&PieceRef::for_buffer(b"none")).is_none());
}

#[test]
fn references_sharing_a_prefix_are_kept_apart() {
    let mut a = vec![7u8; 64];
    let mut b = vec![7u8; 64];
    a[63] = 1;
    b[63] = 2;
    let ra = PieceRef::from_bytes(&a).unwrap();
    let rb = PieceRef::from_bytes(&b).unwrap();
    let mut m = Manifest::empty(None);
    m.pieces.push(ManifestPieceRef { from: 0, len: 1, piece: ra });
    m.pieces.push(ManifestPieceRef { from: 1, len: 1, piece: rb });
    let mut d = Directory::new();
    d.add_manifest(b"f", &m);
    assert_eq!(d.find_piece(&ra).unwrap().from, 0);
    assert_eq!(d.find_piece(&rb).unwrap().from, 1);
    assert_eq!(d.find_piece(&ra).unwrap().reference, ra);
    let mut c = vec![7u8; 64];
    c[63] = 3;
    assert!(d.find_piece(&PieceRef::from_bytes(&c).unwrap()).is_none());
}
