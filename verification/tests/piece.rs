use bytebarrage::piece::{InvalidHashLength, PieceRef, HASH_BYTES};

const ABC_HEX: &str = "BA80A53F981C4D0D6A2797B69F12F6E94C212F14685AC4B74B12BB6FDBFFA2D17D87C5392AAB792DC252D5DE4533CC9518D38AA8DBF1925AB92386EDD4009923";
const EMPTY_HEX: &str = "786A02F742015903C6C6FD852552D272912F4740E15847618A86E217F71F5419D25E1031AFEE585313896444934EB04B903A685B1448B755D56F701AFE9BE2CE";

#[test]
fn for_buffer_is_blake2b_512() {
    assert_eq!(PieceRef::for_buffer(b"abc").to_hex(), ABC_HEX);
    assert_eq!(PieceRef::for_buffer(b"").to_hex(), EMPTY_HEX);
}

#[test]
fn to_hex_has_two_upper_case_digits_per_byte() {
    let mut bytes = vec![0u8; HASH_BYTES];
    bytes[0] = 0x0a;
    bytes[1] = 0xf0;
    bytes[63] = 0x01;
    let r = PieceRef::from_bytes(&bytes).unwrap();
    let hex = r.to_hex();
    assert_eq!(hex.len(), 128);
    assert!(hex.starts_with("0AF000"));
    assert!(hex.ends_with("0001"));
}

#[test]
fn verify_accepts_own_content_only() {
    let r = PieceRef::for_buffer(b"hello world");
    assert!(r.verify(b"hello world"));
    assert!(!r.verify(b"hello worle"));
    assert!(!r.verify(b""));
}

#[test]
fn to_vec_and_from_bytes_round_trip() {
    let r = PieceRef::for_buffer(b"some content");
    let v = r.to_vec();
    assert_eq!(v.len(), HASH_BYTES);
    let back = PieceRef::from_bytes(&v).unwrap();
    assert_eq!(back, r);
    assert!(back.same_as(&r));
    assert_eq!(back.to_hex(), r.to_hex());
}

#[test]
fn from_bytes_refuses_wrong_length() {
    assert_eq!(PieceRef::from_bytes(b"abc"), Err(InvalidHashLength { len: 3 }));
    assert_eq!(PieceRef::from_bytes(&[0u8; 65]), Err(InvalidHashLength { len: 65 }));
    assert_eq!(PieceRef::from_bytes(&[]), Err(InvalidHashLength { len: 0 }));
}

#[test]
fn same_as_tells_references_apart() {
    let a = PieceRef::for_buffer(b"a");
    let b = PieceRef::for_buffer(b"b");
    assert!(a.same_as(&a));
    assert!(!a.same_as(&b));
}
