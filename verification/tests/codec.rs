use bytebarrage::rmp_codec::{DecodeAttempt, InvalidMessage, RmpCodec};

#[test]
fn encode_appends_message_bytes() {
    let mut c: RmpCodec<u32, u32> = RmpCodec::default();
    let mut buf = vec![9u8];
    c.encode(&[1, 2], &mut buf);
    assert_eq!(buf, vec![9, 1, 2]);
}

#[test]
fn decoded_message_leaves_the_buffer() {
    let mut c: RmpCodec<&str, ()> = RmpCodec::new();
    let mut buf = vec![1u8, 2, 3, 4];
    assert_eq!(c.decode(&mut buf, DecodeAttempt::Decoded("m", 3)), Ok(Some("m")));
    assert_eq!(buf, vec![4]);
}

#[test]
fn incomplete_message_waits_for_more_bytes() {
    let mut c: RmpCodec<u8, u8> = RmpCodec::new();
    let mut buf = vec![0x92u8];
    assert_eq!(c.decode(&mut buf, DecodeAttempt::Incomplete), Ok(None));
    assert_eq!(buf, vec![0x92]);
}

#[test]
fn invalid_message_is_an_error() {
    let mut c: RmpCodec<u8, u8> = RmpCodec::new();
    let mut buf = vec![0xc1u8];
    assert_eq!(c.decode(&mut buf, DecodeAttempt::Invalid), Err(InvalidMessage));
    assert_eq!(buf, vec![0xc1]);
}
