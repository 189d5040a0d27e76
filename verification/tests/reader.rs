//! Scalars, texts and sections.

use ag_psd::error::ReadError;
use ag_psd::psd::ReadOptions;
use ag_psd::reader::{
    check_signature, peek_uint32, peek_uint8, read_ascii_string, read_bytes, read_bytes_slice,
    read_int16, read_int32, read_int32_le, read_int8, read_pascal_string, read_psd, read_section,
    read_short_string, read_signature, read_uint16, read_uint16_le, read_uint32, read_uint64,
    read_uint8, read_unicode_string, read_unicode_string_with_length,
    read_unicode_string_with_length_le, skip_bytes, valid_signature_at, PsdReader,
};

#[test]
fn scalar_round_trip_big_endian() {
    let buf: Vec<u8> = vec![
        0x12, // u8
        0xFF, // i8 = -1
        0xFF, 0xFE, // i16 = -2
        0x01, 0x02, // u16 = 0x0102
        0xFF, 0xFF, 0xFF, 0xFD, // i32 = -3
        0x01, 0x02, 0x03, 0x04, // u32 = 0x01020304
    ];
    let mut r = PsdReader::new(&buf, None, None);
    assert_eq!(read_uint8(&mut r).unwrap(), 0x12);
    assert_eq!(read_int8(&mut r).unwrap(), -1);
    assert_eq!(read_int16(&mut r).unwrap(), -2);
    assert_eq!(read_uint16(&mut r).unwrap(), 0x0102);
    assert_eq!(read_int32(&mut r).unwrap(), -3);
    assert_eq!(read_uint32(&mut r).unwrap(), 0x0102_0304);
    assert_eq!(r.offset, buf.len());
}

#[test]
fn uint16_le_differs_from_be() {
    let buf = vec![0x01, 0x02];
    let mut r = PsdReader::new(&buf, None, None);
    assert_eq!(read_uint16_le(&mut r).unwrap(), 0x0201);
}

#[test]
fn signature_and_check() {
    let buf = b"8BIM".to_vec();
    let mut r = PsdReader::new(&buf, None, None);
    assert!(valid_signature_at(&r, 0));
    check_signature(&mut r, "8BIM", None).unwrap();

    let mut r2 = PsdReader::new(&buf, None, None);
    let err = check_signature(&mut r2, "8BPS", None).unwrap_err();
    assert_eq!(
        err,
        ReadError::InvalidSignature {
            signature: "8BIM".to_string(),
            offset: 0
        }
    );
}

#[test]
fn pascal_string_pad_to_2() {
    let buf = vec![0x03, b'a', b'b', b'c'];
    let mut r = PsdReader::new(&buf, None, None);
    assert_eq!(read_pascal_string(&mut r, 2).unwrap(), "abc");
    assert_eq!(r.offset, 4);
}

#[test]
fn pascal_string_with_padding() {
    let buf = vec![0x02, b'a', b'b', 0x00, 0xFF];
    let mut r = PsdReader::new(&buf, None, None);
    assert_eq!(read_pascal_string(&mut r, 4).unwrap(), "ab");
    assert_eq!(r.offset, 4);
}

#[test]
fn pascal_string_empty() {
    let buf = vec![0x00, 0x00, 0x00, 0x00];
    let mut r = PsdReader::new(&buf, None, None);
    assert_eq!(read_pascal_string(&mut r, 4).unwrap(), "");
    assert_eq!(r.offset, 4);
}

#[test]
fn unicode_string_with_length() {
    let buf = vec![
        0x00, 0x00, 0x00, 0x03, // uint32 length = 3
        0x00, 0x48, // 'H'
        0x00, 0x69, // 'i'
        0x00, 0x00, // trailing \0 (dropped)
    ];
    let mut r = PsdReader::new(&buf, None, None);
    assert_eq!(read_unicode_string(&mut r).unwrap(), "Hi");
}

#[test]
fn unicode_string_non_ascii() {
    let buf = vec![
        0x00, 0x00, 0x00, 0x01, // length 1
        0x04, 0x2F, // U+042F
    ];
    let mut r = PsdReader::new(&buf, None, None);
    assert_eq!(read_unicode_string(&mut r).unwrap(), "Я");
}

#[test]
fn unicode_string_surrogate_pair() {
    let buf = vec![
        0x00, 0x00, 0x00, 0x02, // length 2 units
        0xD8, 0x3D, // high surrogate
        0xDE, 0x00, // low surrogate
    ];
    let mut r = PsdReader::new(&buf, None, None);
    assert_eq!(read_unicode_string(&mut r).unwrap(), "😀");
}

#[test]
fn signature_str_is_latin1_codeunits() {
    let buf = vec![0xFF, 0x00, b'A', b'B'];
    let mut r = PsdReader::new(&buf, None, None);
    let sig = read_signature(&mut r).unwrap();
    let chars: Vec<u32> = sig.chars().map(|c| c as u32).collect();
    assert_eq!(chars, vec![0xFF, 0x00, 0x41, 0x42]);
}

#[test]
fn read_bytes_recovery_past_end() {
    let buf = vec![0x01, 0x02];
    let mut r = PsdReader::new(&buf, None, None);
    let out = read_bytes(&mut r, 4).unwrap();
    assert_eq!(out, vec![0x01, 0x02, 0x00, 0x00]);
    assert_eq!(r.offset, 4);
}

#[test]
fn read_bytes_strict_errors() {
    let buf = vec![0x01, 0x02];
    let mut r = PsdReader::new(&buf, None, None);
    r.strict = true;
    let err = read_bytes(&mut r, 4).unwrap_err();
    assert_eq!(
        err,
        ReadError::StrictViolation("Reading bytes exceeding buffer length".to_string())
    );
}

#[test]
fn section_rounding() {
    let buf = vec![
        0x00, 0x00, 0x00, 0x03, // length = 3
        0xAA, 0xBB, 0xCC, // payload (3 bytes)
        0xEE, // padding byte to reach rounded end
    ];
    let mut r = PsdReader::new(&buf, None, None);
    let collected: Vec<u8> = read_section(
        &mut r,
        4,
        |reader, section| {
            assert_eq!(section.left(reader), 3);
            let a = read_uint8(reader)?;
            let b = read_uint8(reader)?;
            let c = read_uint8(reader)?;
            assert_eq!(section.left(reader), 0);
            Ok(vec![a, b, c])
        },
        true,
        false,
    )
    .unwrap()
    .unwrap();
    assert_eq!(collected, vec![0xAA, 0xBB, 0xCC]);
    assert_eq!(r.offset, 8);
}

#[test]
fn section_empty_skipped() {
    let buf = vec![0x00, 0x00, 0x00, 0x00];
    let mut r = PsdReader::new(&buf, None, None);
    let res: Option<()> = read_section(&mut r, 4, |_r, _left| Ok(()), true, false).unwrap();
    assert!(res.is_none());
}

#[test]
fn section_eight_bytes() {
    let buf = vec![
        0x00, 0x00, 0x00, 0x00, // high u32 = 0
        0x00, 0x00, 0x00, 0x02, // low u32 = 2 (length)
        0x11, 0x22, // payload
    ];
    let mut r = PsdReader::new(&buf, None, None);
    let res: Option<u16> =
        read_section(&mut r, 1, |reader, _left| read_uint16(reader), true, true).unwrap();
    assert_eq!(res, Some(0x1122));
}

#[test]
fn section_exceeds_file() {
    let buf = vec![0x00, 0x00, 0x00, 0x10]; // claims 16 bytes but none follow
    let mut r = PsdReader::new(&buf, None, None);
    let err = read_section::<(), _>(&mut r, 1, |_r, _l| Ok(()), true, false).unwrap_err();
    assert_eq!(err, ReadError::SectionExceedsFileSize);
}

#[test]
fn new_with_offset_window() {
    let buf = vec![0x00, 0x11, 0x22, 0x33, 0x44];
    let mut r = PsdReader::new(&buf, Some(1), Some(2));
    assert_eq!(read_uint8(&mut r).unwrap(), 0x11);
    assert_eq!(read_uint8(&mut r).unwrap(), 0x22);
    assert!(read_uint8(&mut r).is_err());
}

#[test]
fn scalars_past_the_end_are_errors_and_leave_the_cursor() {
    let buf = vec![0x01];
    let mut r = PsdReader::new(&buf, None, None);
    assert_eq!(read_uint16(&mut r).unwrap_err(), ReadError::UnexpectedEndOfBuffer);
    assert_eq!(read_uint32(&mut r).unwrap_err(), ReadError::UnexpectedEndOfBuffer);
    assert_eq!(r.offset, 0);
    assert_eq!(read_uint8(&mut r).unwrap(), 1);
    assert_eq!(read_uint8(&mut r).unwrap_err(), ReadError::UnexpectedEndOfBuffer);
}

#[test]
fn peeking_does_not_move_the_cursor() {
    let buf = vec![0x01, 0x02, 0x03, 0x04];
    let r = PsdReader::new(&buf, None, None);
    assert_eq!(peek_uint8(&r).unwrap(), 0x01);
    assert_eq!(peek_uint32(&r).unwrap(), 0x01020304);
    assert_eq!(r.offset, 0);
}

#[test]
fn little_endian_and_wide_scalars() {
    let buf = vec![0xFD, 0xFF, 0xFF, 0xFF, 1, 2, 3, 4, 5, 6, 7, 8];
    let mut r = PsdReader::new(&buf, None, None);
    assert_eq!(read_int32_le(&mut r).unwrap(), -3);
    assert_eq!(read_uint64(&mut r).unwrap(), 0x0102030405060708);
}

#[test]
fn bytes_can_be_borrowed_or_skipped() {
    let buf = vec![1u8, 2, 3, 4, 5];
    let mut r = PsdReader::new(&buf, None, None);
    skip_bytes(&mut r, 1);
    assert_eq!(read_bytes_slice(&mut r, 2).unwrap(), &[2, 3]);
    assert_eq!(r.offset, 3);
    assert_eq!(read_bytes_slice(&mut r, 3).unwrap_err(), ReadError::UnexpectedEndOfBuffer);
}

#[test]
fn more_than_the_recovery_limit_is_not_made_up() {
    let buf = vec![1u8];
    let mut r = PsdReader::new(&buf, None, None);
    assert_eq!(
        read_bytes(&mut r, 100 * 1024 * 1024 + 1).unwrap_err(),
        ReadError::ReadingPastEndOfFile
    );
}

#[test]
fn texts_of_bytes() {
    let buf = vec![b'a', 0xE9, b'b', b'c'];
    let mut r = PsdReader::new(&buf, None, None);
    assert_eq!(read_short_string(&mut r, 2).unwrap(), "aé");
    assert_eq!(read_ascii_string(&mut r, 2).unwrap(), "bc");
}

#[test]
fn utf16_of_a_given_length_in_both_orders() {
    let buf = vec![0x00, b'a', 0x04, 0x2F, b'a', 0x00, 0x2F, 0x04];
    let mut r = PsdReader::new(&buf, None, None);
    assert_eq!(read_unicode_string_with_length(&mut r, 2).unwrap(), "aЯ");
    assert_eq!(read_unicode_string_with_length_le(&mut r, 2).unwrap(), "aЯ");
}

#[test]
fn a_lone_surrogate_becomes_the_replacement_character() {
    let buf = vec![0xD8, 0x3D, 0x00, b'a'];
    let mut r = PsdReader::new(&buf, None, None);
    assert_eq!(read_unicode_string_with_length(&mut r, 2).unwrap(), "\u{FFFD}a");
}

#[test]
fn either_of_two_signatures_is_accepted() {
    let buf = b"8B64".to_vec();
    let mut r = PsdReader::new(&buf, None, None);
    check_signature(&mut r, "8BIM", Some("8B64")).unwrap();
    assert_eq!(r.offset, 4);
}

#[test]
fn a_section_that_needs_eight_bytes_of_length_is_too_large() {
    let buf = vec![0, 0, 0, 1, 0, 0, 0, 2, 9, 9];
    let mut r = PsdReader::new(&buf, None, None);
    let err = read_section::<(), _>(&mut r, 1, |_r, _s| Ok(()), true, true).unwrap_err();
    assert_eq!(err, ReadError::SizeTooLarge);
}

#[test]
fn bytes_left_in_a_section_are_skipped_unless_strict() {
    let buf = vec![0, 0, 0, 2, 1, 2, 3];
    let mut r = PsdReader::new(&buf, None, None);
    let first = read_section(&mut r, 1, |reader, _s| read_uint8(reader), true, false).unwrap();
    assert_eq!(first, Some(1));
    assert_eq!(r.offset, 6);

    let mut strict = PsdReader::new(&buf, None, None);
    strict.strict = true;
    let err = read_section(&mut strict, 1, |reader, _s| read_uint8(reader), true, false).unwrap_err();
    assert!(matches!(err, ReadError::StrictViolation(_)));
}

#[test]
fn messages_of_errors() {
    let messages = [
        (ReadError::UnexpectedEndOfBuffer, "Reading bytes exceeding buffer length"),
        (ReadError::ReadingPastEndOfFile, "Reading past end of file"),
        (
            ReadError::InvalidSignature { signature: "abcd".to_string(), offset: 26 },
            "Invalid signature: 'abcd' at 0x1a",
        ),
        (ReadError::SizeTooLarge, "Sizes larger than 4GB are not supported"),
        (ReadError::SectionExceedsFileSize, "Section exceeds file size"),
        (ReadError::StrictViolation("so".to_string()), "so"),
    ];
    for (error, message) in messages {
        assert_eq!(error.message(), message);
    }
    let size = ReadError::InvalidBoxSize { kind: "layer".to_string(), width: -3, height: 300001 };
    assert_eq!(size.message(), "Invalid layer size: -3x300001");
    let memory = ReadError::ExceededMemoryLimit { requested: 64, available: 10 };
    assert_eq!(memory.message(), "Exceeded memory limit: 64 bytes requested, 10 available");
}

#[test]
fn an_empty_buffer_is_an_error() {
    let err = read_psd(&[], &ReadOptions::default()).unwrap_err();
    let zeros = "\0\0\0\0".to_string();
    assert_eq!(err, ReadError::InvalidSignature { signature: zeros, offset: 0 });
}
