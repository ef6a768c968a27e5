use se_rust::codec::{build_frame, decode, encode};

#[test]
fn encode_passes_plain_bytes_through() {
    assert_eq!(encode(b"ping"), b"ping".to_vec());
    assert_eq!(encode(b""), b"".to_vec());
}

#[test]
fn encode_escapes_cr_and_lf() {
    assert_eq!(encode(b"a\r\nb"), b"a\\r\\nb".to_vec());
    assert_eq!(encode(b"\n"), b"\\n".to_vec());
    assert_eq!(encode(b"\r"), b"\\r".to_vec());
}

#[test]
fn encode_passes_backslash_through() {
    assert_eq!(encode(b"a\\b"), b"a\\b".to_vec());
}

#[test]
fn decode_unescapes_cr_and_lf() {
    assert_eq!(decode(b"a\\r\\nb"), b"a\r\nb".to_vec());
}

#[test]
fn decode_keeps_unknown_escapes_verbatim() {
    assert_eq!(decode(b"a\\xb"), b"a\\xb".to_vec());
}

#[test]
fn decode_keeps_trailing_backslash() {
    assert_eq!(decode(b"ab\\"), b"ab\\".to_vec());
}

#[test]
fn round_trip_single_byte() {
    for b in [0u8, 1, 10, 13, 65, 255] {
        let m = vec![b];
        assert_eq!(decode(&encode(&m)), m);
    }
}

#[test]
fn round_trip_mixed_bytes() {
    let m = b"line one\r\nline two\n\rend".to_vec();
    assert_eq!(decode(&encode(&m)), m);
}

#[test]
fn round_trip_backslash_before_plain_byte() {
    let m = b"a\\b\\\\c".to_vec();
    assert_eq!(decode(&encode(&m)), m);
}

#[test]
fn backslash_before_cr_is_altered_by_a_round_trip() {
    // A literal backslash directly before a carriage return, line feed,
    // `r` or `n` gains escaping meaning on decode, so such messages do
    // not survive the codec unchanged.
    let m = vec![b'\\', b'\r'];
    assert_ne!(decode(&encode(&m)), m);
    let m = vec![b'\\', b'r'];
    assert_eq!(decode(&encode(&m)), vec![b'\r']);
}

#[test]
fn frame_is_encoded_message_plus_newline() {
    assert_eq!(build_frame(b"hi"), b"hi\n".to_vec());
    assert_eq!(build_frame(b"a\nb"), b"a\\nb\n".to_vec());
}
