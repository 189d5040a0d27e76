//! Documents that are written from what they were read with, and both places for
//! pixels.

use ag_psd::document_writer::{write_psd, write_psd_to_writer};
use ag_psd::error::ReadError;
use ag_psd::psd::{
    BlendMode, ChannelId, InfoBlock, Layer, LayerMaskData, PixelData, Psd, ReadOptions,
    SectionDivider, SectionDividerType, WriteOptions,
};
use ag_psd::reader::read_psd;
use ag_psd::writer::{
    create_writer, get_writer_buffer, write_bytes, write_int16, write_pascal_string, write_section,
    write_signature, write_uint16, write_uint32, write_uint8, write_zeros, PsdWriter,
};
use ag_psd::helpers::channel_number;
use flate2::write::ZlibEncoder;
use std::io::Write;

fn noise(w: u32, h: u32, seed: u32) -> PixelData {
    let data: Vec<u8> = (0..w * h * 4).map(|i| (i * 29 + seed + i / 5) as u8 | 1).collect();
    PixelData { width: w, height: h, data }
}

fn layer_of(image: PixelData, name: &str) -> Layer {
    let mut layer = Layer::default();
    layer.additional_info.name = Some(name.to_string());
    layer.top = Some(1);
    layer.left = Some(2);
    layer.bottom = Some(1 + image.height as i32);
    layer.right = Some(2 + image.width as i32);
    layer.image_data = Some(image);
    layer
}

fn gray(value: u8) -> PixelData {
    PixelData { width: 1, height: 1, data: vec![value, value, value, 255] }
}

/// A document with a masked layer, a group, and a transparent composite image.
fn document() -> Psd {
    let mut masked = layer_of(noise(4, 3, 1), "masked");
    masked.additional_info.mask = Some(LayerMaskData {
        top: Some(0),
        left: Some(0),
        bottom: Some(1),
        right: Some(1),
        default_color: Some(255),
        image_data: Some(gray(77)),
        ..Default::default()
    });
    let mut group = Layer {
        opened: Some(false),
        blend_mode: Some(BlendMode::PassThrough),
        children: Some(vec![layer_of(noise(2, 2, 9), "inner")]),
        ..Default::default()
    };
    group.additional_info.name = Some("group".to_string());
    let mut image = noise(6, 5, 40);
    for (i, pixel) in image.data.chunks_mut(4).enumerate() {
        pixel[3] = if i % 3 == 0 { 0 } else { 255 };
    }
    Psd {
        width: 6,
        height: 5,
        children: Some(vec![masked, group]),
        image_data: Some(image),
        ..Default::default()
    }
}

fn undecoded() -> ReadOptions {
    ReadOptions { use_raw_data: Some(true), ..ReadOptions::default() }
}

fn decoded() -> ReadOptions {
    ReadOptions { use_image_data: Some(true), ..ReadOptions::default() }
}

#[test]
fn a_document_that_is_not_decoded_is_written_as_it_was_stored() {
    for psb in [None, Some(true)] {
        for compress in [None, Some(true)] {
            let options = WriteOptions { psb, compress, ..WriteOptions::default() };
            let first = write_psd(&document(), &options);
            let kept = read_psd(&first, &undecoded()).unwrap();
            assert!(kept.children.as_ref().unwrap()[0].raw_data.is_some());
            // How new channels would be compressed does not matter.
            for other in [None, Some(true)] {
                let again = WriteOptions { psb, compress: other, ..WriteOptions::default() };
                let second = write_psd(&kept, &again);
                assert_eq!(second, first);
                assert_eq!(read_psd(&second, &undecoded()).unwrap(), kept);
                let pixels = read_psd(&second, &decoded()).unwrap();
                assert_eq!(pixels, read_psd(&first, &decoded()).unwrap());
                let layers = pixels.children.as_ref().unwrap();
                assert_eq!(layers[0].image_data, Some(noise(4, 3, 1)));
                let mask = layers[0].additional_info.mask.as_ref().unwrap();
                assert_eq!(mask.image_data, Some(gray(77)));
            }
        }
    }
}

#[test]
fn pixels_are_written_in_place_of_stored_channels() {
    let bytes = write_psd(&document(), &WriteOptions::default());
    let mut kept = read_psd(&bytes, &undecoded()).unwrap();
    let layers = kept.children.as_mut().unwrap();
    layers[0].canvas = Some(noise(4, 3, 200));
    layers[0].additional_info.mask = None;
    let again = read_psd(&write_psd(&kept, &WriteOptions::default()), &decoded()).unwrap();
    let layers = again.children.as_ref().unwrap();
    assert_eq!(layers[0].image_data, Some(noise(4, 3, 200)));
    let inner = layers[1].children.as_ref().unwrap();
    assert_eq!(inner[0].image_data, Some(noise(2, 2, 9)));
}

#[test]
fn a_stored_composite_image_keeps_to_its_format() {
    let bytes = write_psd(&document(), &WriteOptions::default());
    let kept = read_psd(&bytes, &undecoded()).unwrap();
    assert!(kept.raw_composite_data.as_ref().unwrap().global_alpha);
    assert_eq!(kept.channels, Some(4));
    // In the other format the row lengths have another size.
    let large = WriteOptions { psb: Some(true), ..WriteOptions::default() };
    let mut bare = kept;
    bare.children = None;
    let bytes = write_psd(&bare, &large);
    let raw = bare.raw_composite_data.as_ref().unwrap();
    assert!(!bytes.ends_with(&raw.data));
    let again = read_psd(&bytes, &decoded()).unwrap();
    assert_eq!(again.channels, Some(4));
    assert_eq!(again.image_data, document().image_data);
    // What cannot be decoded is black.
    bare.raw_composite_data.as_mut().unwrap().data.truncate(5);
    let again = read_psd(&write_psd(&bare, &large), &decoded()).unwrap();
    assert_eq!(again.channels, Some(3));
    assert_eq!(again.image_data.unwrap().data, [0, 0, 0, 255].repeat(30));
}

#[test]
fn stored_pixels_are_coded_anew_for_the_other_format() {
    for (from, to) in [(None, Some(true)), (Some(true), None)] {
        for compress in [None, Some(true)] {
            let options = WriteOptions { psb: from, compress, ..WriteOptions::default() };
            let other = WriteOptions { psb: to, ..WriteOptions::default() };
            let kept = read_psd(&write_psd(&document(), &options), &undecoded()).unwrap();
            let again = write_psd(&kept, &other);
            assert_eq!(again, write_psd(&document(), &other));
            let pixels = read_psd(&again, &decoded()).unwrap();
            assert_eq!(pixels.image_data, document().image_data);
            let layers = pixels.children.as_ref().unwrap();
            assert_eq!(layers[0].image_data, Some(noise(4, 3, 1)));
            let mask = layers[0].additional_info.mask.as_ref().unwrap();
            assert_eq!(mask.image_data, Some(gray(77)));
            let inner = layers[1].children.as_ref().unwrap();
            assert_eq!(inner[0].image_data, Some(noise(2, 2, 9)));
        }
    }
}

#[test]
fn stored_channels_that_cannot_be_decoded_are_not_written() {
    let bytes = write_psd(&document(), &WriteOptions::default());
    let mut kept = read_psd(&bytes, &undecoded()).unwrap();
    let raw = kept.children.as_mut().unwrap()[0].raw_data.as_mut().unwrap();
    raw.channels[0].data = Some(vec![0]);
    let large = WriteOptions { psb: Some(true), ..WriteOptions::default() };
    let again = read_psd(&write_psd(&kept, &large), &decoded()).unwrap();
    let layers = again.children.as_ref().unwrap();
    assert_eq!(layers[0].image_data, None);
    assert_eq!(layers[0].additional_info.name.as_deref(), Some("masked"));
    let inner = layers[1].children.as_ref().unwrap();
    assert_eq!(inner[0].image_data, Some(noise(2, 2, 9)));
}

#[test]
fn stored_gray_pixels_are_coded_in_colour() {
    let mut w = create_writer(64);
    head(&mut w, 1, (1, 1), 8, 1);
    write_zeros(&mut w, 8);
    write_section(
        &mut w,
        2,
        |w: &mut PsdWriter| {
            write_section(w, 4, |w: &mut PsdWriter| one_layer(w, "gray", &[7]), true, false);
            write_uint32(w, 0);
        },
        false,
        false,
    );
    write_bytes(&mut w, Some(&[0, 0, 5]));
    let kept = read_psd(&get_writer_buffer(&w), &undecoded()).unwrap();
    assert!(kept.children.as_ref().unwrap()[0].raw_data.is_some());
    assert!(kept.raw_composite_data.is_some());
    let again = read_psd(&write_psd(&kept, &WriteOptions::default()), &decoded()).unwrap();
    assert_eq!(again.image_data.unwrap().data, vec![5, 5, 5, 255]);
    let layers = again.children.unwrap();
    assert_eq!(layers[0].image_data.as_ref().unwrap().data, vec![7, 7, 7, 255]);
    assert_eq!(layers[0].additional_info.name.as_deref(), Some("gray"));
}

#[test]
fn the_bytes_do_not_depend_on_the_writer() {
    for compress in [None, Some(true)] {
        let options = WriteOptions { compress, ..WriteOptions::default() };
        let bytes = write_psd(&document(), &options);
        for size in [1usize, 10, 5000] {
            let mut w = create_writer(size);
            write_psd_to_writer(&mut w, &document(), &options);
            assert_eq!(get_writer_buffer(&w), bytes);
            write_psd_to_writer(&mut w, &document(), &options);
            assert_eq!(get_writer_buffer(&w), [bytes.clone(), bytes.clone()].concat());
        }
    }
}

/// Canvas and image data of a layer and its masks exchanged, and of all in it.
fn exchange(layer: &mut Layer) {
    std::mem::swap(&mut layer.canvas, &mut layer.image_data);
    let info = &mut layer.additional_info;
    for mask in [&mut info.mask, &mut info.real_mask] {
        if let Some(mask) = mask.as_mut() {
            std::mem::swap(&mut mask.canvas, &mut mask.image_data);
        }
    }
    for child in layer.children.iter_mut().flatten() {
        exchange(child);
    }
}

#[test]
fn pixels_are_a_canvas_or_image_data_and_nothing_else_changes() {
    let bytes = write_psd(&document(), &WriteOptions::default());
    let mut psd = read_psd(&bytes, &ReadOptions::default()).unwrap();
    assert_eq!(psd.image_data, None);
    assert_eq!(psd.canvas, document().image_data);
    let layers = psd.children.as_ref().unwrap();
    assert_eq!(layers[0].canvas, Some(noise(4, 3, 1)));
    assert_eq!(layers[0].image_data, None);
    std::mem::swap(&mut psd.canvas, &mut psd.image_data);
    for layer in psd.children.iter_mut().flatten() {
        exchange(layer);
    }
    assert_eq!(read_psd(&bytes, &decoded()).unwrap(), psd);
    let damaged = &bytes[..bytes.len() / 2];
    assert_eq!(
        read_psd(damaged, &decoded()).unwrap_err(),
        read_psd(damaged, &ReadOptions::default()).unwrap_err()
    );
}

#[test]
fn an_image_that_is_opaque_or_clear_comes_back_unchanged() {
    let image = document().image_data.unwrap();
    let mut psd = Psd { width: 6, height: 5, image_data: Some(image.clone()), ..Default::default() };
    let again = read_psd(&write_psd(&psd, &WriteOptions::default()), &ReadOptions::default()).unwrap();
    assert_eq!((again.width, again.height), (6, 5));
    assert_eq!(again.canvas, Some(image.clone()));
    assert_eq!(again.children, Some(vec![]));
    // Bytes behind the pixels are not written.
    psd.image_data.as_mut().unwrap().data.extend([1, 2, 3]);
    let longer = read_psd(&write_psd(&psd, &WriteOptions::default()), &decoded()).unwrap();
    assert_eq!(longer.image_data, Some(image));
}

#[test]
fn an_image_is_read_up_to_the_very_limit() {
    let opaque = PixelData { width: 6, height: 5, data: vec![255; 120] };
    // Four bytes for each row of three channels, or of four.
    for (image, tables) in [(opaque, 60usize), (document().image_data.unwrap(), 80)] {
        let psd = Psd { width: 6, height: 5, image_data: Some(image.clone()), ..Default::default() };
        let bytes = write_psd(&psd, &WriteOptions::default());
        let limited = |limit: usize| {
            read_psd(&bytes, &ReadOptions { total_memory_limit: Some(limit), ..decoded() })
        };
        assert_eq!(limited(120 + tables).unwrap().image_data, Some(image));
        assert!(matches!(
            limited(119 + tables).unwrap_err(),
            ReadError::ExceededMemoryLimit { .. }
        ));
    }
}

#[test]
fn a_document_without_image_resources_says_so() {
    let again = read_psd(&write_psd(&document(), &WriteOptions::default()), &decoded()).unwrap();
    assert_eq!(again.image_resources, None);
}

#[test]
fn a_memory_limit_makes_reading_fail_or_changes_nothing() {
    for compress in [None, Some(true)] {
        let options = WriteOptions { compress, ..WriteOptions::default() };
        let bytes = write_psd(&document(), &options);
        let unlimited = ReadOptions { total_memory_limit: None, ..decoded() };
        let psd = read_psd(&bytes, &unlimited).unwrap();
        let mut failed = 0;
        for limit in (0..600).step_by(7) {
            let limited = ReadOptions { total_memory_limit: Some(limit), ..decoded() };
            match read_psd(&bytes, &limited) {
                Ok(found) => assert_eq!(found, psd),
                Err(error) => {
                    assert!(matches!(error, ReadError::ExceededMemoryLimit { .. }));
                    failed += 1;
                },
            }
        }
        assert!(0 < failed && failed < 80);
    }
}

#[test]
fn groups_may_be_nested_deeply() {
    let mut layer = layer_of(noise(1, 1, 5), "innermost");
    for _ in 0..500 {
        layer = Layer { opened: Some(true), children: Some(vec![layer]), ..Default::default() };
    }
    let psd = Psd { width: 4, height: 4, children: Some(vec![layer]), ..Default::default() };
    let again = read_psd(&write_psd(&psd, &WriteOptions::default()), &decoded()).unwrap();
    let mut layers = again.children.unwrap();
    for _ in 0..500 {
        assert_eq!(layers.len(), 1);
        layers = layers.remove(0).children.unwrap();
    }
    assert_eq!(layers[0].image_data, Some(noise(1, 1, 5)));
}

fn violation(bytes: &[u8]) -> String {
    match read_psd(bytes, &decoded()) {
        Err(ReadError::StrictViolation(message)) => message,
        other => panic!("not a violation: {other:?}"),
    }
}

fn with_block(key: u32, data: Vec<u8>) -> Psd {
    let mut layer = Layer::default();
    layer.additional_info.name = Some("named".to_string());
    layer.additional_info.blocks = vec![InfoBlock { key, data }];
    Psd { width: 1, height: 1, children: Some(vec![layer]), ..Default::default() }
}

#[test]
fn layers_inside_of_a_layer_are_refused() {
    for key in [0x4C72_3136u32, 0x4C72_3332] {
        let bytes = write_psd(&with_block(key, vec![0, 0]), &WriteOptions::default());
        assert_eq!(violation(&bytes), "Layers inside of a layer");
    }
}

#[test]
fn a_divider_may_have_either_key() {
    for key in [0x6C73_6374u32, 0x6C73_646B] {
        let bytes = write_psd(&with_block(key, vec![0, 0, 0, 2]), &WriteOptions::default());
        let again = read_psd(&bytes, &decoded()).unwrap();
        let group = &again.children.as_ref().unwrap()[0];
        assert_eq!(group.opened, Some(false));
        assert_eq!(group.children, Some(vec![]));
        assert_eq!(
            group.additional_info.section_divider,
            Some(SectionDivider {
                divider_type: SectionDividerType::ClosedFolder,
                key: None,
                sub_type: None,
            })
        );
    }
}

fn head(w: &mut PsdWriter, channels: u16, size: (u32, u32), bits: u16, mode: u16) {
    write_signature(w, "8BPS");
    write_uint16(w, 1);
    write_zeros(w, 6);
    write_uint16(w, channels);
    write_uint32(w, size.1);
    write_uint32(w, size.0);
    write_uint16(w, bits);
    write_uint16(w, mode);
}

/// The part about layers with one layer of one gray pixel.
fn one_layer(w: &mut PsdWriter, name: &str, sample: &[u8]) {
    write_int16(w, 1);
    for side in [0u32, 0, 1, 1] {
        write_uint32(w, side);
    }
    write_uint16(w, 1);
    write_int16(w, channel_number(ChannelId::Color0));
    write_uint32(w, 2 + sample.len() as u32);
    write_signature(w, "8BIM");
    write_signature(w, "norm");
    for byte in [255u8, 0, 0, 0] {
        write_uint8(w, byte);
    }
    write_section(
        w,
        1,
        |w: &mut PsdWriter| {
            write_zeros(w, 8);
            write_pascal_string(w, name, 4);
        },
        false,
        false,
    );
    write_uint16(w, 0);
    write_bytes(w, Some(sample));
}

#[test]
fn layers_of_a_block_come_before_the_others() {
    let mut w = create_writer(64);
    head(&mut w, 3, (1, 1), 16, 3);
    write_zeros(&mut w, 8);
    write_section(
        &mut w,
        2,
        |w: &mut PsdWriter| {
            let plain = |w: &mut PsdWriter| one_layer(w, "plain", &[7, 7]);
            write_section(w, 4, plain, true, false);
            write_uint32(w, 0);
            for (key, name) in [("Lr16", "first"), ("Lr32", "second")] {
                write_signature(w, "8BIM");
                write_signature(w, key);
                let nested = |w: &mut PsdWriter| one_layer(w, name, &[9, 9]);
                write_section(w, 2, nested, false, false);
            }
        },
        false,
        false,
    );
    write_uint16(&mut w, 0);
    write_bytes(&mut w, Some(&[1, 1, 2, 2, 3, 3]));
    let psd = read_psd(&get_writer_buffer(&w), &decoded()).unwrap();
    let names: Vec<String> =
        psd.children.unwrap().into_iter().map(|l| l.additional_info.name.unwrap()).collect();
    assert_eq!(names, ["second", "first", "plain"]);
}

fn zlib(data: &[u8]) -> Vec<u8> {
    let mut encoder = ZlibEncoder::new(Vec::new(), flate2::Compression::best());
    encoder.write_all(data).unwrap();
    encoder.finish().unwrap()
}

/// A document of an image alone.
fn flat(channels: u16, size: (u32, u32), bits: u16, mode: u16, image: &[u8]) -> Vec<u8> {
    let mut w = create_writer(64);
    head(&mut w, channels, size, bits, mode);
    write_zeros(&mut w, 12);
    write_bytes(&mut w, Some(image));
    get_writer_buffer(&w)
}

fn zipped(compression: u8, planes: &[&[u8]]) -> Vec<u8> {
    let streams: Vec<u8> = planes.iter().flat_map(|plane| zlib(plane)).collect();
    [vec![0, compression], streams].concat()
}

#[test]
fn compressed_composite_images() {
    let data = |bytes: Vec<u8>| read_psd(&bytes, &decoded()).unwrap().image_data.unwrap().data;
    let rgb = flat(3, (2, 1), 8, 3, &zipped(2, &[&[1, 2], &[3, 4], &[5, 6]]));
    assert_eq!(data(rgb), vec![1, 3, 5, 255, 2, 4, 6, 255]);
    let summed = flat(3, (2, 1), 8, 3, &zipped(3, &[&[1, 2], &[3, 4], &[5, 6]]));
    assert_eq!(data(summed), vec![1, 3, 5, 255, 3, 7, 11, 255]);
    let deep = flat(1, (2, 1), 16, 1, &zipped(2, &[&[0x12, 0xFF, 0x34, 0xFF]]));
    assert_eq!(data(deep), vec![0x12, 0x12, 0x12, 255, 0x34, 0x34, 0x34, 255]);
    let float = [0.25f32.to_be_bytes(), 1.0f32.to_be_bytes()];
    let planes: Vec<u8> = (0..4).flat_map(|i| [float[0][i], float[1][i]]).collect();
    let deepest = flat(1, (2, 1), 32, 1, &zipped(2, &[&planes]));
    assert_eq!(data(deepest), vec![64, 64, 64, 255, 255, 255, 255, 255]);
    let bitmap = flat(1, (2, 2), 1, 0, &zipped(2, &[&[0b0100_0000, 0b1000_0000]]));
    assert_eq!(
        data(bitmap),
        vec![255, 255, 255, 255, 0, 0, 0, 255, 0, 0, 0, 255, 255, 255, 255, 255]
    );
}

#[test]
fn a_compressed_composite_image_has_exactly_its_size() {
    for plane in [vec![1u8], vec![1, 2, 3]] {
        let bytes = flat(1, (2, 1), 8, 1, &zipped(2, &[&plane]));
        assert_eq!(violation(&bytes), "Invalid compressed image data");
    }
    assert_eq!(
        violation(&flat(1, (2, 1), 8, 1, &[0, 2, 9, 9, 9])),
        "Invalid compressed image data"
    );
}

#[test]
fn run_length_coded_images_of_all_depths() {
    let data = |bytes: Vec<u8>| read_psd(&bytes, &decoded()).unwrap().image_data.unwrap().data;
    let deep = flat(1, (2, 1), 16, 1, &[0, 1, 0, 5, 3, 0x12, 0xFF, 0x34, 0xFF]);
    assert_eq!(data(deep), vec![0x12, 0x12, 0x12, 255, 0x34, 0x34, 0x34, 255]);
    let float = [0.25f32.to_be_bytes(), 1.0f32.to_be_bytes()].concat();
    let deepest = flat(1, (2, 1), 32, 1, &[vec![0, 1, 0, 9, 7], float].concat());
    assert_eq!(data(deepest), vec![64, 64, 64, 255, 255, 255, 255, 255]);
}

#[test]
fn there_are_four_ways_to_store_an_image() {
    for mode in [1u16, 3] {
        let bytes = flat(3, (1, 1), 8, mode, &[0, 4, 1, 2, 3]);
        assert_eq!(violation(&bytes), "Compression type not supported: 4");
    }
}

#[test]
fn inflated_samples_count_against_the_memory_limit() {
    let bytes = flat(1, (4, 4), 8, 1, &zipped(2, &[&[7; 16]]));
    let limited = |limit: usize| {
        read_psd(&bytes, &ReadOptions { total_memory_limit: Some(limit), ..decoded() })
    };
    assert_eq!(
        limited(70).unwrap_err(),
        ReadError::ExceededMemoryLimit { requested: 16, available: 6 }
    );
    assert!(limited(80).is_ok());

    let options = WriteOptions { compress: Some(true), ..WriteOptions::default() };
    let psd = Psd {
        width: 4,
        height: 4,
        children: Some(vec![layer_of(noise(4, 4, 3), "layer")]),
        ..Default::default()
    };
    let bytes = write_psd(&psd, &options);
    let limit = ReadOptions { total_memory_limit: Some(70), ..decoded() };
    assert_eq!(
        read_psd(&bytes, &limit).unwrap_err(),
        ReadError::ExceededMemoryLimit { requested: 16, available: 6 }
    );
}

#[test]
fn control_characters_of_a_signature_are_given_by_their_numbers() {
    let error = read_psd(b"\0\x1b[A rest", &decoded()).unwrap_err();
    assert_eq!(
        error,
        ReadError::InvalidSignature { signature: "\0\u{1b}[A".to_string(), offset: 0 }
    );
    assert_eq!(error.message(), "Invalid signature: '\\u{0}\\u{1b}[A' at 0x0");
    let error = ReadError::InvalidSignature { signature: "\u{7f}\u{9f}~a".to_string(), offset: 31 };
    assert_eq!(error.message(), "Invalid signature: '\\u{7f}\\u{9f}~a' at 0x1f");
}

#[test]
fn the_lowest_size_can_be_told() {
    let error =
        ReadError::InvalidBoxSize { kind: "layer".to_string(), width: i64::MIN, height: -1 };
    assert_eq!(error.message(), "Invalid layer size: -9223372036854775808x-1");
}
