//! Patterns of all depths and of palette colours.

use ag_psd::error::ReadError;
use ag_psd::pattern::read_pattern;
use ag_psd::psd::PatternInfo;
use ag_psd::reader::PsdReader;
use ag_psd::writer::{
    create_writer_default, get_writer_buffer, write_bytes, write_int16, write_pascal_string,
    write_uint16, write_uint32, write_uint8, write_unicode_string, write_zeros, PsdWriter,
};

fn rect(w: &mut PsdWriter) {
    for side in [0u32, 0, 1, 2] {
        write_uint32(w, side);
    }
}

/// A pattern of two pixels side by side, in a colour mode, with one channel after
/// the other.
fn pattern(mode: u32, depth: u16, compression: u8, channels: &[&[u8]]) -> Vec<u8> {
    let mut w = create_writer_default();
    write_uint32(&mut w, 2000);
    write_uint32(&mut w, 1);
    write_uint32(&mut w, mode);
    write_int16(&mut w, 0);
    write_int16(&mut w, 0);
    write_unicode_string(&mut w, "p");
    write_pascal_string(&mut w, "id", 1);
    if mode == 2 {
        for i in 0..256u32 {
            for base in [0u32, 100, 200] {
                write_uint8(&mut w, (base + i) as u8);
            }
        }
        write_zeros(&mut w, 4);
    }
    write_uint32(&mut w, 3);
    write_uint32(&mut w, 0);
    rect(&mut w);
    write_uint32(&mut w, 24);
    for data in channels {
        write_uint32(&mut w, 1);
        write_uint32(&mut w, 23 + data.len() as u32);
        write_uint32(&mut w, depth as u32);
        rect(&mut w);
        write_uint16(&mut w, depth);
        write_uint8(&mut w, compression);
        write_bytes(&mut w, Some(data));
    }
    write_zeros(&mut w, 4 * 26);
    get_writer_buffer(&w)
}

fn read(bytes: &[u8]) -> Result<PatternInfo, ReadError> {
    let mut r = PsdReader::new(bytes, None, None);
    read_pattern(&mut r)
}

#[test]
fn patterns_of_all_depths_become_bytes() {
    let bytes = pattern(3, 8, 0, &[&[1, 2], &[3, 4], &[5, 6]]);
    assert_eq!(read(&bytes).unwrap().data, vec![1, 3, 5, 255, 2, 4, 6, 255]);
    // 16-bit samples are reduced to their upper bytes.
    let bytes = pattern(
        3,
        16,
        0,
        &[&[0x11, 0xFF, 0x12, 0xFF], &[0x21, 0, 0x22, 0], &[0x31, 9, 0x32, 9]],
    );
    assert_eq!(
        read(&bytes).unwrap().data,
        vec![0x11, 0x21, 0x31, 255, 0x12, 0x22, 0x32, 255]
    );
    // 32-bit samples are floating point numbers.
    let sample = [0.25f32.to_be_bytes(), 1.0f32.to_be_bytes()].concat();
    let bytes = pattern(1, 32, 0, &[&sample]);
    assert_eq!(read(&bytes).unwrap().data, vec![64, 64, 64, 255, 255, 255, 255, 255]);
}

#[test]
fn run_length_coded_patterns_of_sixteen_bits() {
    // One row of four bytes: its length, and the bytes as they are.
    let row = [0, 5, 3, 0x41, 0xFF, 0x42, 0xFF];
    let bytes = pattern(1, 16, 1, &[&row]);
    assert_eq!(
        read(&bytes).unwrap().data,
        vec![0x41, 0x41, 0x41, 255, 0x42, 0x42, 0x42, 255]
    );
}

#[test]
fn other_depths_of_patterns_are_refused() {
    for depth in [1u16, 4, 24] {
        assert_eq!(
            read(&pattern(3, depth, 0, &[&[1, 2]])).unwrap_err(),
            ReadError::StrictViolation("16bit pixel depth not supported for patterns".to_string())
        );
    }
}

#[test]
fn indexed_patterns_take_the_colours_of_their_palette() {
    let bytes = pattern(2, 8, 0, &[&[3, 7]]);
    assert_eq!(read(&bytes).unwrap().data, vec![3, 103, 203, 255, 7, 107, 207, 255]);
    assert_eq!(
        read(&pattern(2, 8, 1, &[&[0, 3, 1, 3, 7]])).unwrap_err(),
        ReadError::StrictViolation("Indexed pattern color mode not implemented".to_string())
    );
}
