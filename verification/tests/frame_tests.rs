use capitan::frame::{
    decode_len, encode_frame, is_keepalive, keepalive_bytes, parse_frame, verify_keepalive,
    KEEPALIVE_MISMATCH,
};

#[test]
fn a_frame_is_length_prefix_then_payload() {
    let framed = encode_frame(b"abc");
    assert_eq!(framed, vec![3, 0, 0, 0, 0, 0, 0, 0, 97, 98, 99]);
}

#[test]
fn an_empty_payload_frames_to_its_bare_prefix() {
    let framed = encode_frame(b"");
    assert_eq!(framed, vec![0, 0, 0, 0, 0, 0, 0, 0]);
}

#[test]
fn decode_len_reads_the_prefix_back() {
    let framed = encode_frame(b"hello");
    assert_eq!(decode_len(&framed[0..8]), 5);
}

#[test]
fn parse_undoes_encode() {
    let payload: Vec<u8> = vec![9, 8, 7, 6, 5];
    let framed = encode_frame(&payload);
    let parsed = parse_frame(&framed).expect("a well-built frame parses");
    assert_eq!(parsed, payload);
}

#[test]
fn a_short_buffer_is_no_frame() {
    assert!(parse_frame(&[1, 2, 3]).is_none());
}

#[test]
fn a_lying_length_prefix_is_rejected() {
    let mut framed = encode_frame(b"abc");
    framed[0] = 2;
    assert!(parse_frame(&framed).is_none());
    framed[0] = 4;
    assert!(parse_frame(&framed).is_none());
}

#[test]
fn the_keepalive_sentinel_is_fixed() {
    assert_eq!(keepalive_bytes(), vec![92, 82, 192, 75]);
}

#[test]
fn only_the_sentinel_passes_the_keepalive_check() {
    assert!(is_keepalive(&[92, 82, 192, 75]));
    assert!(!is_keepalive(&[92, 82, 192, 76]));
    assert!(!is_keepalive(&[92, 82, 192]));
    assert!(!is_keepalive(&[]));
    assert!(verify_keepalive(&keepalive_bytes()).is_ok());
    let e = verify_keepalive(&[1, 2, 3, 4]).unwrap_err();
    assert_eq!(e.code, KEEPALIVE_MISMATCH);
}

#[test]
fn keepalive_survives_its_own_framing() {
    let framed = encode_frame(&keepalive_bytes());
    let parsed = parse_frame(&framed).unwrap();
    assert!(is_keepalive(&parsed));
}
