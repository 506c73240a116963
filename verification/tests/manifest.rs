use bytebarrage::manifest::{manifest_file_extension, Manifest, PIECE_BYTES};
use bytebarrage::piece::PieceRef;

fn content(n: usize) -> Vec<u8> {
    (0..n).map(|i| (i % 251) as u8).collect()
}

#[test]
fn empty_content_has_no_pieces() {
    let m = Manifest::for_contents(Some("empty".to_string()), &[]);
    assert_eq!(m.name.as_deref(), Some("empty"));
    assert!(m.pieces.is_empty());
    assert_eq!(m.len(), 0);
}

#[test]
fn small_content_is_one_piece() {
    let data = content(10);
    let m = Manifest::for_contents(None, &data);
    assert_eq!(m.pieces.len(), 1);
    assert_eq!(m.pieces[0].from, 0);
    assert_eq!(m.pieces[0].len, 10);
    assert_eq!(m.pieces[0].piece, PieceRef::for_buffer(&data));
    assert_eq!(m.len(), 10);
}

#[test]
fn content_is_cut_every_piece_bytes() {
    let data = content(PIECE_BYTES + 5);
    let m = Manifest::for_contents(None, &data);
    assert_eq!(m.pieces.len(), 2);
    assert_eq!((m.pieces[0].from, m.pieces[0].len), (0, PIECE_BYTES as u64));
    assert_eq!((m.pieces[1].from, m.pieces[1].len), (PIECE_BYTES as u64, 5));
    assert!(m.pieces[0].verify(&data[..PIECE_BYTES]));
    assert!(m.pieces[1].verify(&data[PIECE_BYTES..]));
    assert!(!m.pieces[1].verify(&data[..5]));
    assert_eq!(m.len(), (PIECE_BYTES + 5) as u64);
}

#[test]
fn content_of_whole_pieces_has_no_short_piece() {
    let data = content(2 * PIECE_BYTES);
    let m = Manifest::for_contents(None, &data);
    assert_eq!(m.pieces.len(), 2);
    assert_eq!(m.pieces[1].from, PIECE_BYTES as u64);
    assert_eq!(m.pieces[1].len, PIECE_BYTES as u64);
    assert_eq!(m.len(), 2 * PIECE_BYTES as u64);
}

#[test]
fn push_piece_places_chunks_one_after_another() {
    let mut m = Manifest::empty(Some("f".to_string()));
    m.push_piece(b"abc");
    m.push_piece(b"defgh");
    assert_eq!(m.pieces.len(), 2);
    assert_eq!((m.pieces[0].from, m.pieces[0].len), (0, 3));
    assert_eq!((m.pieces[1].from, m.pieces[1].len), (3, 5));
    assert!(m.pieces[1].verify(b"defgh"));
    assert_eq!(m.len(), 8);
}

#[test]
fn len_is_largest_end_in_any_order() {
    let p = PieceRef::for_buffer(b"x");
    let mut m = Manifest::empty(None);
    m.pieces.push(bytebarrage::manifest::ManifestPieceRef { from: 100, len: 50, piece: p });
    m.pieces.push(bytebarrage::manifest::ManifestPieceRef { from: 0, len: 10, piece: p });
    assert_eq!(m.len(), 150);
}

#[test]
fn ref_vec_is_digest_of_piece() {
    let data = content(7);
    let m = Manifest::for_contents(None, &data);
    assert_eq!(m.pieces[0].ref_vec(), PieceRef::for_buffer(&data).to_vec());
}

#[test]
fn push_piece_ref_places_piece_after_the_last() {
    let r = PieceRef::for_buffer(b"r");
    let mut m = Manifest::empty(None);
    m.push_piece_ref(7, r);
    m.push_piece_ref(3, r);
    assert_eq!((m.pieces[1].from, m.pieces[1].len), (7, 3));
    assert_eq!(m.pieces[1].piece, r);
    assert_eq!(m.len(), 10);
}

#[test]
fn manifest_file_extension_appends_blizzard() {
    assert_eq!(manifest_file_extension("iso"), "iso.blizzard");
    assert_eq!(manifest_file_extension("tar.gz"), "tar.gz.blizzard");
    assert_eq!(manifest_file_extension(""), "blizzard");
}
