//! UTF-8 of texts.

use ag_psd::utf8::{
    decode_string, encode_string, encode_string_to, string_length_in_bytes, Utf8DecodeError,
};

#[test]
fn ascii_round_trip() {
    let s = "Hello, World!";
    let bytes = encode_string(s);
    assert_eq!(bytes, s.as_bytes());
    assert_eq!(decode_string(&bytes).unwrap(), s);
}

#[test]
fn empty_round_trip() {
    let s = "";
    let bytes = encode_string(s);
    assert!(bytes.is_empty());
    assert_eq!(string_length_in_bytes(s), 0);
    assert_eq!(decode_string(&bytes).unwrap(), s);
}

#[test]
fn cyrillic_round_trip() {
    let s = "Привет";
    let bytes = encode_string(s);
    assert_eq!(bytes.len(), 12);
    assert_eq!(string_length_in_bytes(s), 12);
    assert_eq!(&bytes[0..4], &[0xD0, 0x9F, 0xD1, 0x80]);
    assert_eq!(bytes, s.as_bytes());
    assert_eq!(decode_string(&bytes).unwrap(), s);
}

#[test]
fn three_byte_round_trip() {
    let s = "あ";
    let bytes = encode_string(s);
    assert_eq!(bytes, vec![0xE3, 0x81, 0x82]);
    assert_eq!(string_length_in_bytes(s), 3);
    assert_eq!(decode_string(&bytes).unwrap(), s);
}

#[test]
fn emoji_surrogate_pair_round_trip() {
    let s = "😀";
    let bytes = encode_string(s);
    assert_eq!(bytes, vec![0xF0, 0x9F, 0x98, 0x80]);
    assert_eq!(string_length_in_bytes(s), 4);
    assert_eq!(decode_string(&bytes).unwrap(), s);
}

#[test]
fn mixed_round_trip() {
    let s = "aЯ あ😀z";
    let bytes = encode_string(s);
    assert_eq!(bytes, s.as_bytes());
    assert_eq!(string_length_in_bytes(s), s.len());
    assert_eq!(decode_string(&bytes).unwrap(), s);
}

#[test]
fn decode_rejects_lone_surrogate() {
    let err = decode_string(&[0xED, 0xA0, 0x80]).unwrap_err();
    assert_eq!(err, Utf8DecodeError::LoneSurrogate(0xD800));
}

#[test]
fn decode_rejects_overlong_two_byte() {
    let err = decode_string(&[0xC0, 0x80]).unwrap_err();
    assert_eq!(err, Utf8DecodeError::InvalidContinuationByte);
}

#[test]
fn decode_rejects_bad_continuation() {
    let err = decode_string(&[0xC2, 0x20]).unwrap_err();
    assert_eq!(err, Utf8DecodeError::InvalidContinuationByte);
}

#[test]
fn decode_rejects_truncated() {
    let err = decode_string(&[0xE3, 0x81]).unwrap_err();
    assert_eq!(err, Utf8DecodeError::InvalidByteIndex);
}

#[test]
fn decode_rejects_invalid_lead() {
    let err = decode_string(&[0xFF]).unwrap_err();
    assert_eq!(err, Utf8DecodeError::InvalidUtf8Detected);
}

#[test]
fn encode_into_a_buffer_gives_the_next_offset() {
    let mut buffer = [0u8; 6];
    let end = encode_string_to(&mut buffer, 1, "aЯ");
    assert_eq!(end, 4);
    assert_eq!(buffer, [0, b'a', 0xD0, 0xAF, 0, 0]);
}
