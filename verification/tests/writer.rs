//! Scalars, texts, sections and colours, and whole documents.

use ag_psd::psd::{
    BlendMode, Cmyk, Color, ColorMode, Frgb, Grayscale, Hsb, Lab, Layer, PixelData, Psd,
    ReadOptions, Rgb, Rgba, WriteOptions,
};
use ag_psd::reader::{read_color, read_psd, PsdReader};
use ag_psd::writer::{
    create_writer, create_writer_default, get_writer_buffer, get_writer_buffer_no_copy,
    write_ascii_string, write_bytes, write_color, write_int16, write_int32, write_int32_le,
    write_pascal_string, write_psd, write_psd_to_writer, write_section, write_signature,
    write_uint16, write_uint16_le, write_uint32, write_uint64, write_uint8, write_unicode_string,
    write_unicode_string_with_padding, write_unicode_string_without_length,
    write_unicode_string_without_length_le, write_zeros, PsdWriter,
};

#[test]
fn scalars_big_endian() {
    let mut w = create_writer_default();
    write_uint8(&mut w, 0x12);
    write_uint16(&mut w, 0x1234);
    write_int16(&mut w, -2);
    write_uint32(&mut w, 0x12345678);
    write_int32(&mut w, -1);
    let buf = get_writer_buffer(&w);
    assert_eq!(
        buf,
        vec![
            0x12, // u8
            0x12, 0x34, // u16 BE
            0xff, 0xfe, // i16 BE (-2)
            0x12, 0x34, 0x56, 0x78, // u32 BE
            0xff, 0xff, 0xff, 0xff, // i32 BE (-1)
        ]
    );
}

#[test]
fn le_variants() {
    let mut w = create_writer_default();
    write_uint16_le(&mut w, 0x1234);
    write_int32_le(&mut w, 0x12345678);
    assert_eq!(get_writer_buffer(&w), vec![0x34, 0x12, 0x78, 0x56, 0x34, 0x12]);
}

#[test]
fn signature_and_zeros() {
    let mut w = create_writer_default();
    write_signature(&mut w, "8BPS");
    write_zeros(&mut w, 3);
    assert_eq!(get_writer_buffer(&w), vec![b'8', b'B', b'P', b'S', 0, 0, 0]);
}

#[test]
fn pascal_string_padding() {
    let mut w = create_writer_default();
    write_pascal_string(&mut w, "ab", 4);
    assert_eq!(get_writer_buffer(&w), vec![2, b'a', b'b', 0]);
}

#[test]
fn pascal_string_empty_pad2() {
    let mut w = create_writer_default();
    write_pascal_string(&mut w, "", 2);
    assert_eq!(get_writer_buffer(&w), vec![0, 0]);
}

#[test]
fn pascal_string_non_ascii_becomes_question() {
    let mut w = create_writer_default();
    write_pascal_string(&mut w, "é", 1);
    assert_eq!(get_writer_buffer(&w), vec![1, b'?']);
}

#[test]
fn unicode_string_layout() {
    let mut w = create_writer_default();
    write_unicode_string(&mut w, "AB");
    assert_eq!(
        get_writer_buffer(&w),
        vec![
            0x00, 0x00, 0x00, 0x02, // length = 2 (u32 BE)
            0x00, b'A', 0x00, b'B', // UTF-16 BE
        ]
    );
}

#[test]
fn unicode_string_with_padding_layout() {
    let mut w = create_writer_default();
    write_unicode_string_with_padding(&mut w, "A");
    assert_eq!(
        get_writer_buffer(&w),
        vec![
            0x00, 0x00, 0x00, 0x02, // length+1 = 2
            0x00, b'A', // UTF-16 BE
            0x00, 0x00, // terminating 0
        ]
    );
}

#[test]
fn section_backpatch_and_rounding() {
    let mut w = create_writer_default();
    write_section(
        &mut w,
        4,
        |w: &mut PsdWriter| {
            write_uint8(w, 0xaa);
            write_uint8(w, 0xbb);
            write_uint8(w, 0xcc);
        },
        false,
        false,
    );
    assert_eq!(
        get_writer_buffer(&w),
        vec![
            0x00, 0x00, 0x00, 0x03, // the length without the padding
            0xaa, 0xbb, 0xcc, // body
            0x00, // padding to round=4
        ]
    );
}

#[test]
fn section_total_length() {
    let mut w = create_writer_default();
    write_section(
        &mut w,
        4,
        |w: &mut PsdWriter| {
            write_uint8(w, 0xaa);
            write_uint8(w, 0xbb);
            write_uint8(w, 0xcc);
        },
        true,
        false,
    );
    assert_eq!(
        get_writer_buffer(&w),
        vec![0x00, 0x00, 0x00, 0x04, 0xaa, 0xbb, 0xcc, 0x00]
    );
}

#[test]
fn section_large() {
    let mut w = create_writer_default();
    write_section(&mut w, 2, |w: &mut PsdWriter| write_uint8(w, 0x7f), false, true);
    assert_eq!(
        get_writer_buffer(&w),
        vec![
            0x00, 0x00, 0x00, 0x00, // upper half of the length
            0x00, 0x00, 0x00, 0x01, // length = 1 (un-padded)
            0x7f, // body
            0x00, // padding to round=2
        ]
    );
}

#[test]
fn buffer_growth_doubling() {
    let mut w = create_writer(4);
    for i in 0..10u8 {
        write_uint8(&mut w, i);
    }
    assert_eq!(w.offset, 10);
    assert_eq!(w.buffer.len(), 16);
    assert_eq!(get_writer_buffer(&w), vec![0, 1, 2, 3, 4, 5, 6, 7, 8, 9]);
}

#[test]
fn write_bytes_grows_and_appends() {
    let mut w = create_writer(2);
    write_bytes(&mut w, Some(&[1, 2, 3, 4, 5]));
    write_bytes(&mut w, None);
    assert_eq!(get_writer_buffer(&w), vec![1, 2, 3, 4, 5]);
}

#[test]
fn color_none_is_rgb_zeros() {
    let mut w = create_writer_default();
    write_color(&mut w, None);
    assert_eq!(get_writer_buffer(&w), vec![0x00, 0x00, 0, 0, 0, 0, 0, 0, 0, 0]);
}

/// The stored sample of an 8-bit component.
fn sample(component: f64) -> u16 {
    (component * 257.0).round() as u16
}

#[test]
fn color_rgb() {
    let mut w = create_writer_default();
    let c = Color::Rgb(Rgb { r: sample(255.0), g: sample(0.0), b: sample(128.0) });
    write_color(&mut w, Some(&c));
    assert_eq!(
        get_writer_buffer(&w),
        vec![
            0x00, 0x00, // ColorSpace::Rgb
            0xff, 0xff, // r
            0x00, 0x00, // g
            0x80, 0x80, // b
            0x00, 0x00, // pad
        ]
    );
}

#[test]
fn color_cmyk_lab_hsb_grayscale_color_space_codes() {
    let mut w = create_writer_default();
    write_color(&mut w, Some(&Color::Cmyk(Cmyk { c: 0, m: 0, y: 0, k: 0 })));
    write_color(&mut w, Some(&Color::Lab(Lab { l: 0, a: 0, b: 0 })));
    write_color(&mut w, Some(&Color::Hsb(Hsb { h: 0, s: 0, b: 0 })));
    write_color(&mut w, Some(&Color::Grayscale(Grayscale { k: 0 })));
    let buf = get_writer_buffer(&w);
    assert_eq!(&buf[0..2], &[0x00, 0x02]); // Cmyk = 2
    assert_eq!(&buf[10..12], &[0x00, 0x07]); // Lab = 7
    assert_eq!(&buf[20..22], &[0x00, 0x01]); // Hsb = 1
    assert_eq!(&buf[30..32], &[0x00, 0x08]); // Grayscale = 8
}

#[test]
fn colors_are_read_back_as_they_are_stored() {
    let colors = [
        (
            Color::Rgb(Rgb { r: 1, g: 2, b: 3 }),
            Color::Rgb(Rgb { r: 1, g: 2, b: 3 }),
        ),
        (
            Color::Rgba(Rgba { r: 1, g: 2, b: 3, a: 4 }),
            Color::Rgb(Rgb { r: 1, g: 2, b: 3 }),
        ),
        (
            Color::Frgb(Frgb { fr: 1, fg: 2, fb: 3 }),
            Color::Rgb(Rgb { r: 1, g: 2, b: 3 }),
        ),
        (
            Color::Hsb(Hsb { h: 9, s: 8, b: 7 }),
            Color::Hsb(Hsb { h: 9, s: 8, b: 7 }),
        ),
        (
            Color::Lab(Lab { l: 10000, a: -12800, b: 12700 }),
            Color::Lab(Lab { l: 10000, a: -12800, b: 12700 }),
        ),
        (
            Color::Cmyk(Cmyk { c: 65535, m: 257, y: 0, k: 514 }),
            Color::Cmyk(Cmyk { c: 65535, m: 257, y: 0, k: 514 }),
        ),
        (
            Color::Grayscale(Grayscale { k: 10000 }),
            Color::Grayscale(Grayscale { k: 10000 }),
        ),
    ];
    for (color, stored) in colors {
        let mut w = create_writer_default();
        write_color(&mut w, Some(&color));
        let buf = get_writer_buffer(&w);
        assert_eq!(buf.len(), 10);
        let mut r = PsdReader::new(&buf, None, None);
        assert_eq!(read_color(&mut r), Ok(stored));
        assert_eq!(r.offset, 10);
    }
}

#[test]
fn texts_without_a_length() {
    let mut w = create_writer_default();
    write_unicode_string_without_length(&mut w, "a😀");
    write_unicode_string_without_length_le(&mut w, "a😀");
    write_ascii_string(&mut w, "ab");
    write_uint64(&mut w, 0x0102030405060708);
    assert_eq!(
        get_writer_buffer_no_copy(&w),
        &[
            0, b'a', 0xD8, 0x3D, 0xDE, 0x00, b'a', 0, 0x3D, 0xD8, 0x00, 0xDE, b'a', b'b', 1, 2, 3,
            4, 5, 6, 7, 8
        ]
    );
}

fn round_trip(psd: &Psd) -> Psd {
    let bytes = write_psd(psd, &WriteOptions::default());
    read_psd(&bytes, &ReadOptions { use_image_data: Some(true), ..ReadOptions::default() })
        .expect("re-read written psd")
}

/// The stored byte of an opacity.
fn opacity(value: f64) -> u8 {
    (value * 255.0).round() as u8
}

fn solid(w: u32, h: u32, rgba: [u8; 4]) -> PixelData {
    let mut data = vec![0u8; (w * h * 4) as usize];
    for px in data.chunks_mut(4) {
        px.copy_from_slice(&rgba);
    }
    PixelData { width: w, height: h, data }
}

#[test]
fn round_trip_synthetic_two_solid_layers() {
    let mut red = Layer::default();
    red.additional_info.name = Some("red".to_string());
    red.top = Some(0);
    red.left = Some(0);
    red.bottom = Some(4);
    red.right = Some(4);
    red.opacity = Some(opacity(1.0));
    red.blend_mode = Some(BlendMode::Normal);
    red.image_data = Some(solid(4, 4, [255, 0, 0, 255]));

    let mut blue = Layer::default();
    blue.additional_info.name = Some("blue".to_string());
    blue.top = Some(0);
    blue.left = Some(0);
    blue.bottom = Some(4);
    blue.right = Some(4);
    blue.opacity = Some(opacity(0.5));
    blue.blend_mode = Some(BlendMode::Multiply);
    blue.image_data = Some(solid(4, 4, [0, 0, 255, 200]));

    let psd = Psd {
        width: 4,
        height: 4,
        color_mode: Some(ColorMode::Rgb),
        bits_per_channel: Some(8),
        children: Some(vec![red, blue]),
        ..Default::default()
    };

    let again = round_trip(&psd);

    assert_eq!(again.width, 4);
    assert_eq!(again.height, 4);
    assert_eq!(again.color_mode, Some(ColorMode::Rgb));

    let children = again.children.as_ref().expect("children");
    assert_eq!(children.len(), 2, "two layers survive");

    let red_back = &children[0];
    assert_eq!(red_back.additional_info.name.as_deref(), Some("red"));
    assert_eq!(red_back.blend_mode, Some(BlendMode::Normal));
    assert_eq!(red_back.opacity, Some(255));
    assert_eq!(red_back.bottom, Some(4));
    assert_eq!(red_back.right, Some(4));
    let rd = red_back.image_data.as_ref().expect("red image data");
    assert_eq!(&rd.data[0..4], &[255, 0, 0, 255]);

    let blue_back = &children[1];
    assert_eq!(blue_back.additional_info.name.as_deref(), Some("blue"));
    assert_eq!(blue_back.blend_mode, Some(BlendMode::Multiply));
    assert_eq!(blue_back.opacity, Some(128));
    let bd = blue_back.image_data.as_ref().expect("blue image data");
    assert_eq!(&bd.data[0..4], &[0, 0, 255, 200]);
}

#[test]
fn a_document_is_written_behind_what_the_writer_holds() {
    let psd = Psd { width: 2, height: 1, ..Default::default() };
    let mut w = create_writer(1);
    write_uint8(&mut w, 77);
    write_psd_to_writer(&mut w, &psd, &WriteOptions::default());
    let buf = get_writer_buffer(&w);
    assert_eq!(buf[0], 77);
    assert_eq!(&buf[1..], &write_psd(&psd, &WriteOptions::default())[..]);
}
