//! Whole documents: what is written is read back.

use ag_psd::document_writer::{write_psd, write_psd_to_writer};
use ag_psd::error::ReadError;
use ag_psd::helpers::channel_number;
use ag_psd::psd::{
    BlendMode, BlendingRange, BlendingRanges, ChannelId, ColorMode, Compression,
    GlobalLayerMaskInfo, InfoBlock, Layer, LayerMaskData, PaletteColor, PixelData, Psd,
    ReadOptions, ResourceBlock, SectionDivider, SectionDividerType, WriteOptions,
};
use ag_psd::reader::read_psd;
use ag_psd::writer::{
    create_writer_default, get_writer_buffer, write_bytes, write_int16, write_pascal_string,
    write_section, write_signature, write_uint16, write_uint32, write_uint8, write_zeros,
    PsdWriter,
};

fn solid(w: u32, h: u32, rgba: [u8; 4]) -> PixelData {
    PixelData { width: w, height: h, data: rgba.repeat((w * h) as usize) }
}

/// A bitmap in which no two neighbours are alike.
fn noise(w: u32, h: u32) -> PixelData {
    let data: Vec<u8> = (0..w * h * 4).map(|i| (i * 37 + i / 7) as u8 | 1).collect();
    PixelData { width: w, height: h, data }
}

fn pixels_at(top: i32, left: i32, image: PixelData) -> Layer {
    let mut layer = Layer::default();
    layer.additional_info.name = Some("layer".to_string());
    layer.top = Some(top);
    layer.left = Some(left);
    layer.bottom = Some(top + image.height as i32);
    layer.right = Some(left + image.width as i32);
    layer.image_data = Some(image);
    layer
}

fn document(width: u32, height: u32, children: Vec<Layer>) -> Psd {
    Psd { width, height, children: Some(children), ..Default::default() }
}

fn settings() -> ReadOptions {
    ReadOptions { use_image_data: Some(true), ..ReadOptions::default() }
}

fn back(psd: &Psd, options: WriteOptions) -> Psd {
    read_psd(&write_psd(psd, &options), &settings()).expect("a written document is read")
}

#[test]
fn pixels_survive_every_way_of_writing() {
    let image = noise(7, 5);
    let psd = document(9, 9, vec![pixels_at(1, 2, image.clone())]);
    for compress in [None, Some(true)] {
        for psb in [None, Some(true)] {
            let options = WriteOptions { compress, psb, ..WriteOptions::default() };
            let again = back(&psd, options);
            let layer = &again.children.as_ref().expect("children")[0];
            assert_eq!(layer.image_data.as_ref(), Some(&image));
            assert_eq!(layer.canvas, None);
            assert_eq!((layer.top, layer.left), (Some(1), Some(2)));
            assert_eq!((layer.bottom, layer.right), (Some(6), Some(9)));
        }
    }
}

#[test]
fn pixels_are_read_into_a_canvas_unless_asked_otherwise() {
    let image = noise(3, 3);
    let psd = document(3, 3, vec![pixels_at(0, 0, image.clone())]);
    let bytes = write_psd(&psd, &WriteOptions::default());
    let again = read_psd(&bytes, &ReadOptions::default()).unwrap();
    let layer = &again.children.as_ref().unwrap()[0];
    assert_eq!(layer.canvas.as_ref(), Some(&image));
    assert_eq!(layer.image_data, None);
}

#[test]
fn trimming_cuts_off_the_transparent_border() {
    let mut image = solid(6, 4, [0, 0, 0, 0]);
    for (x, y) in [(2usize, 1usize), (3, 2)] {
        let at = (y * 6 + x) * 4;
        image.data[at..at + 4].copy_from_slice(&[9, 8, 7, 255]);
    }
    let psd = document(10, 10, vec![pixels_at(3, 1, image)]);
    let options = WriteOptions { trim_image_data: Some(true), ..WriteOptions::default() };
    let again = back(&psd, options);
    let layer = &again.children.as_ref().unwrap()[0];
    assert_eq!((layer.top, layer.left), (Some(4), Some(3)));
    assert_eq!((layer.bottom, layer.right), (Some(6), Some(5)));
    let part = layer.image_data.as_ref().unwrap();
    assert_eq!((part.width, part.height), (2, 2));
    assert_eq!(part.data, [9, 8, 7, 255, 0, 0, 0, 0, 0, 0, 0, 0, 9, 8, 7, 255]);
}

#[test]
fn groups_keep_their_shape() {
    let inner = Layer {
        opened: Some(false),
        children: Some(vec![pixels_at(0, 0, noise(2, 2))]),
        ..Default::default()
    };
    let mut outer = Layer {
        opened: Some(true),
        blend_mode: Some(BlendMode::PassThrough),
        children: Some(vec![pixels_at(0, 0, noise(1, 1)), inner]),
        ..Default::default()
    };
    outer.additional_info.name = Some("outer".to_string());
    let psd = document(4, 4, vec![pixels_at(1, 1, noise(3, 3)), outer]);
    let again = back(&psd, WriteOptions::default());
    let top = again.children.as_ref().unwrap();
    assert_eq!(top.len(), 2);
    assert_eq!(top[0].children, None);
    assert_eq!(top[1].opened, Some(true));
    assert_eq!(top[1].blend_mode, Some(BlendMode::PassThrough));
    assert_eq!(top[1].additional_info.name.as_deref(), Some("outer"));
    let second = top[1].children.as_ref().unwrap();
    assert_eq!(second.len(), 2);
    assert_eq!(second[0].image_data.as_ref(), Some(&noise(1, 1)));
    assert_eq!(second[1].opened, Some(false));
    let third = second[1].children.as_ref().unwrap();
    assert_eq!(third.len(), 1);
    assert_eq!(third[0].image_data.as_ref(), Some(&noise(2, 2)));
}

#[test]
fn masks_come_back_with_their_pixels() {
    let mut layer = pixels_at(0, 0, noise(2, 2));
    let mut mask_image = solid(2, 1, [0, 0, 0, 255]);
    for (at, value) in [(0, 10u8), (4, 200)] {
        mask_image.data[at..at + 3].copy_from_slice(&[value, value, value]);
    }
    layer.additional_info.mask = Some(LayerMaskData {
        top: Some(1),
        left: Some(-2),
        bottom: Some(2),
        right: Some(0),
        default_color: Some(255),
        disabled: Some(true),
        position_relative_to_layer: Some(true),
        user_mask_density: Some(100),
        vector_mask_feather: Some(0x4008_0000_0000_0000),
        image_data: Some(mask_image.clone()),
        ..Default::default()
    });
    let psd = document(4, 4, vec![layer]);
    for compress in [None, Some(true)] {
        let again = back(&psd, WriteOptions { compress, ..WriteOptions::default() });
        let read = &again.children.as_ref().unwrap()[0];
        let mask = read.additional_info.mask.as_ref().unwrap();
        assert_eq!((mask.top, mask.left), (Some(1), Some(-2)));
        assert_eq!((mask.bottom, mask.right), (Some(2), Some(0)));
        assert_eq!(mask.default_color, Some(255));
        assert_eq!(mask.disabled, Some(true));
        assert_eq!(mask.position_relative_to_layer, Some(true));
        assert_eq!(mask.user_mask_density, Some(100));
        assert_eq!(mask.vector_mask_feather, Some(0x4008_0000_0000_0000));
        assert_eq!(mask.user_mask_feather, None);
        assert_eq!(mask.image_data.as_ref(), Some(&mask_image));
        assert_eq!(read.image_data.as_ref(), Some(&noise(2, 2)));
    }
}

#[test]
fn real_masks_come_back_with_their_pixels() {
    let mut layer = pixels_at(0, 0, noise(1, 1));
    let gray = |value: u8| PixelData {
        width: 1,
        height: 1,
        data: vec![value, value, value, 255],
    };
    let mask = |value: u8| LayerMaskData {
        top: Some(0),
        left: Some(0),
        bottom: Some(1),
        right: Some(1),
        default_color: Some(0),
        image_data: Some(gray(value)),
        ..Default::default()
    };
    layer.additional_info.mask = Some(mask(7));
    layer.additional_info.real_mask = Some(mask(9));
    let again = back(&document(1, 1, vec![layer]), WriteOptions::default());
    let info = &again.children.as_ref().unwrap()[0].additional_info;
    assert_eq!(info.mask.as_ref().unwrap().image_data.as_ref(), Some(&gray(7)));
    assert_eq!(info.real_mask.as_ref().unwrap().image_data.as_ref(), Some(&gray(9)));
}

#[test]
fn settings_of_a_layer_survive() {
    let mut layer = pixels_at(0, 0, noise(1, 2));
    layer.blend_mode = Some(BlendMode::HardMix);
    layer.opacity = Some(77);
    layer.clipping = Some(true);
    layer.transparency_protected = Some(true);
    layer.hidden = Some(true);
    layer.effects_open = Some(true);
    layer.additional_info.blending_ranges = Some(BlendingRanges {
        composite_gray_blend_source: 0x0000_FFFF,
        composite_graph_blend_destination_range: 0x0102_0304,
        ranges: vec![BlendingRange { source_range: 5, dest_range: 6 }],
    });
    layer.additional_info.blocks =
        vec![InfoBlock { key: 0x6C79_6964, data: vec![0, 0, 0, 3] }];
    let ranges = layer.additional_info.blending_ranges.clone();
    let blocks = layer.additional_info.blocks.clone();
    for psb in [None, Some(true)] {
        let again = back(
            &document(2, 2, vec![]),
            WriteOptions { psb, ..WriteOptions::default() },
        );
        assert_eq!((again.width, again.height), (2, 2));
    }
    let again = back(&document(2, 2, vec![layer]), WriteOptions::default());
    let read = &again.children.as_ref().unwrap()[0];
    assert_eq!(read.blend_mode, Some(BlendMode::HardMix));
    assert_eq!(read.opacity, Some(77));
    assert_eq!(read.clipping, Some(true));
    assert_eq!(read.transparency_protected, Some(true));
    assert_eq!(read.hidden, Some(true));
    assert_eq!(read.effects_open, Some(true));
    assert_eq!(read.additional_info.name.as_deref(), Some("layer"));
    assert_eq!(read.additional_info.blending_ranges, ranges);
    assert_eq!(read.additional_info.blocks, blocks);
}

#[test]
fn the_defaults_of_a_layer_are_normal_and_opaque() {
    let psd = document(1, 1, vec![Layer::default()]);
    let again = back(&psd, WriteOptions::default());
    let read = &again.children.as_ref().unwrap()[0];
    assert_eq!(read.blend_mode, Some(BlendMode::Normal));
    assert_eq!(read.opacity, Some(255));
    assert_eq!(read.clipping, Some(false));
    assert_eq!(read.hidden, Some(false));
    assert_eq!(read.additional_info.name.as_deref(), Some(""));
    assert_eq!(read.image_data, None);
}

#[test]
fn what_is_said_of_the_document_survives() {
    let mut psd = document(3, 2, vec![]);
    psd.image_data = Some(noise(3, 2));
    for pixel in psd.image_data.as_mut().unwrap().data.chunks_mut(4) {
        pixel[3] = 255;
    }
    psd.image_resources = Some(vec![
        ResourceBlock { id: 1005, data: vec![1, 2, 3] },
        ResourceBlock { id: 4000, data: vec![] },
    ]);
    psd.global_layer_mask_info = Some(GlobalLayerMaskInfo {
        overlay_color_space: 1,
        color_space1: 2,
        color_space2: 3,
        color_space3: 4,
        color_space4: 5,
        opacity: 6,
        kind: 128,
    });
    psd.additional_info.blocks = vec![
        InfoBlock { key: 0x5061_7474, data: vec![] },
        InfoBlock { key: 0x4669_6C74, data: vec![4, 5, 6] },
    ];
    for psb in [None, Some(true)] {
        let again = back(&psd, WriteOptions { psb, ..WriteOptions::default() });
        assert_eq!(again.channels, Some(3));
        assert_eq!(again.bits_per_channel, Some(8));
        assert_eq!(again.color_mode, Some(ColorMode::Rgb));
        assert_eq!(again.image_data, psd.image_data);
        assert_eq!(again.image_resources, psd.image_resources);
        assert_eq!(again.global_layer_mask_info, psd.global_layer_mask_info);
        assert_eq!(again.additional_info.blocks.len(), 2);
        assert_eq!(again.additional_info.blocks[0].data, vec![]);
        assert_eq!(&again.additional_info.blocks[1].data[0..3], &[4, 5, 6]);
    }
}

#[test]
fn a_transparent_image_is_written_with_four_channels_on_a_white_matte() {
    let image = PixelData { width: 2, height: 1, data: vec![100, 50, 0, 128, 10, 20, 30, 255] };
    let mut psd = document(2, 1, vec![pixels_at(0, 0, noise(2, 1))]);
    psd.image_data = Some(image.clone());
    let bytes = write_psd(&psd, &WriteOptions::default());
    assert_eq!(&bytes[12..14], &[0, 4]);
    let again = read_psd(&bytes, &settings()).unwrap();
    assert_eq!(again.channels, Some(4));
    let read = again.image_data.unwrap();
    assert_eq!(&read.data[4..8], &[10, 20, 30, 255]);
    assert_eq!(read.data[3], 128);
    for c in 0..3 {
        let difference = read.data[c] as i32 - image.data[c] as i32;
        assert!(difference.abs() <= 1, "channel {c}: {difference}");
    }
}

#[test]
fn the_lowest_opaque_layer_is_a_background() {
    let opaque = solid(2, 2, [1, 2, 3, 255]);
    let psd = document(2, 2, vec![pixels_at(0, 0, opaque.clone())]);
    let raw = ReadOptions { use_raw_data: Some(true), ..ReadOptions::default() };
    let channels = |options: WriteOptions| -> Vec<ChannelId> {
        let again = read_psd(&write_psd(&psd, &options), &raw).unwrap();
        let data = again.children.unwrap().remove(0).raw_data.unwrap();
        data.channels.iter().map(|c| c.id).collect()
    };
    let colors = vec![ChannelId::Color0, ChannelId::Color1, ChannelId::Color2];
    assert_eq!(channels(WriteOptions::default()), colors);
    let kept = WriteOptions { no_background: Some(true), ..WriteOptions::default() };
    assert_eq!(channels(kept), [vec![ChannelId::Transparency], colors].concat());
    let again = back(&psd, WriteOptions::default());
    assert_eq!(again.children.unwrap()[0].image_data.as_ref(), Some(&opaque));
}

#[test]
fn channels_can_be_kept_as_they_are_stored() {
    let psd = document(2, 1, vec![pixels_at(0, 0, solid(2, 1, [1, 2, 3, 4]))]);
    let raw = ReadOptions { use_raw_data: Some(true), ..ReadOptions::default() };
    let again = read_psd(&write_psd(&psd, &WriteOptions::default()), &raw).unwrap();
    let layer = &again.children.as_ref().unwrap()[0];
    assert_eq!((&layer.canvas, &layer.image_data), (&None, &None));
    let data = layer.raw_data.as_ref().unwrap();
    assert_eq!(data.color_mode, ColorMode::Rgb);
    assert_eq!(data.bits_per_channel, 8);
    assert!(!data.large);
    assert_eq!(data.channels.len(), 4);
    assert_eq!(data.channels[0].id, ChannelId::Transparency);
    assert_eq!(data.channels[0].compression, Compression::RleCompressed);
    assert_eq!(data.channels[0].data, Some(vec![0, 3, 1, 4, 4]));
    assert_eq!(data.channels[3].data, Some(vec![0, 3, 1, 3, 3]));
}

#[test]
fn parts_can_be_left_unread() {
    let mut psd = document(2, 1, vec![pixels_at(0, 0, noise(2, 1))]);
    psd.image_data = Some(solid(2, 1, [5, 6, 7, 255]));
    psd.image_resources = Some(vec![
        ResourceBlock { id: 1036, data: vec![1, 2] },
        ResourceBlock { id: 1005, data: vec![3] },
    ]);
    let bytes = write_psd(&psd, &WriteOptions::default());

    let no_layers = ReadOptions { skip_layer_image_data: Some(true), ..settings() };
    let again = read_psd(&bytes, &no_layers).unwrap();
    let layer = &again.children.as_ref().unwrap()[0];
    assert_eq!((&layer.canvas, &layer.image_data, &layer.raw_data), (&None, &None, &None));
    assert_eq!(again.image_data, psd.image_data);

    let no_image = ReadOptions { skip_composite_image_data: Some(true), ..settings() };
    let again = read_psd(&bytes, &no_image).unwrap();
    assert_eq!((again.image_data, again.canvas), (None, None));
    assert_eq!(again.children.unwrap()[0].image_data, Some(noise(2, 1)));

    let no_thumbnail = ReadOptions { skip_thumbnail: Some(true), ..settings() };
    let again = read_psd(&bytes, &no_thumbnail).unwrap();
    assert_eq!(again.image_resources, Some(vec![ResourceBlock { id: 1005, data: vec![3] }]));
}

#[test]
fn names_are_cut_to_what_a_length_byte_can_say() {
    let mut layer = pixels_at(0, 0, noise(1, 1));
    layer.additional_info.name = Some("n".repeat(300));
    let again = back(&document(1, 1, vec![layer]), WriteOptions::default());
    let name = again.children.unwrap().remove(0).additional_info.name.unwrap();
    assert_eq!(name, "n".repeat(255));
}

#[test]
fn the_memory_limit_is_kept() {
    let psd = document(8, 8, vec![pixels_at(0, 0, noise(8, 8))]);
    let bytes = write_psd(&psd, &WriteOptions::default());
    let limited = |limit: usize| {
        read_psd(&bytes, &ReadOptions { total_memory_limit: Some(limit), ..settings() })
    };
    assert_eq!(
        limited(100).unwrap_err(),
        ReadError::ExceededMemoryLimit { requested: 256, available: 100 }
    );
    assert!(matches!(limited(300).unwrap_err(), ReadError::ExceededMemoryLimit { .. }));
    assert!(limited(10_000).is_ok());
    let unlimited = ReadOptions { total_memory_limit: None, ..settings() };
    assert!(read_psd(&bytes, &unlimited).is_ok());
}

#[test]
fn a_damaged_document_is_an_error_or_a_document() {
    let psd = document(4, 3, vec![pixels_at(0, 0, noise(4, 3))]);
    let bytes = write_psd(&psd, &WriteOptions::default());
    for end in 0..bytes.len() {
        let _ = read_psd(&bytes[..end], &settings());
    }
    for at in 0..bytes.len() {
        let mut damaged = bytes.clone();
        damaged[at] ^= 0xFF;
        let limit = ReadOptions { total_memory_limit: Some(1 << 20), ..settings() };
        let _ = read_psd(&damaged, &limit);
    }
}

/// The head of a document.
fn head(w: &mut PsdWriter, version: u16, channels: u16, size: (u32, u32), bits: u16, mode: u16) {
    write_signature(w, "8BPS");
    write_uint16(w, version);
    write_zeros(w, 6);
    write_uint16(w, channels);
    write_uint32(w, size.1);
    write_uint32(w, size.0);
    write_uint16(w, bits);
    write_uint16(w, mode);
}

/// A document without a palette, resources and layers, and its image.
fn flat(channels: u16, size: (u32, u32), bits: u16, mode: u16, image: &[u8]) -> Vec<u8> {
    let mut w = create_writer_default();
    head(&mut w, 1, channels, size, bits, mode);
    write_zeros(&mut w, 12);
    write_bytes(&mut w, Some(image));
    get_writer_buffer(&w)
}

fn violation(bytes: &[u8]) -> String {
    match read_psd(bytes, &settings()) {
        Err(ReadError::StrictViolation(message)) => message,
        other => panic!("not a violation: {other:?}"),
    }
}

#[test]
fn heads_that_break_the_rules() {
    let with = |version, channels, size, bits, mode| -> Vec<u8> {
        let mut w = create_writer_default();
        head(&mut w, version, channels, size, bits, mode);
        get_writer_buffer(&w)
    };
    assert_eq!(violation(&with(3, 3, (1, 1), 8, 3)), "Invalid PSD file version: 3");
    assert_eq!(violation(&with(1, 3, (30001, 1), 8, 3)), "Invalid size: 30001x1");
    assert_eq!(violation(&with(2, 3, (1, 300001), 8, 3)), "Invalid size: 1x300001");
    assert_eq!(violation(&with(1, 17, (1, 1), 8, 3)), "Invalid channel count: 17");
    assert_eq!(violation(&with(1, 3, (1, 1), 7, 3)), "Invalid bitsPerChannel: 7");
    assert_eq!(violation(&with(1, 3, (1, 1), 8, 9)), "Color mode not supported: 9");
    assert_eq!(
        read_psd(b"8BPX rest", &settings()).unwrap_err(),
        ReadError::InvalidSignature { signature: "8BPX".to_string(), offset: 0 }
    );
    assert_eq!(
        read_psd(&with(1, 3, (1, 1), 8, 3)[..20], &settings()).unwrap_err(),
        ReadError::UnexpectedEndOfBuffer
    );
}

#[test]
fn images_of_all_colour_modes() {
    let data = |bytes: Vec<u8>| read_psd(&bytes, &settings()).unwrap().image_data.unwrap().data;
    // Raw samples of red, green and blue, one plane after the other.
    let rgb = flat(3, (2, 1), 8, 3, &[0, 0, 1, 2, 3, 4, 5, 6]);
    assert_eq!(data(rgb), vec![1, 3, 5, 255, 2, 4, 6, 255]);
    let gray = flat(1, (2, 1), 8, 1, &[0, 0, 7, 9]);
    assert_eq!(data(gray), vec![7, 7, 7, 255, 9, 9, 9, 255]);
    let bitmap = flat(1, (2, 1), 1, 0, &[0, 0, 0b0100_0000]);
    assert_eq!(data(bitmap), vec![255, 255, 255, 255, 0, 0, 0, 255]);
    // 16-bit samples are reduced to their upper bytes.
    let deep = flat(3, (1, 1), 16, 3, &[0, 0, 0x12, 0x34, 0x56, 0x78, 0x9A, 0xBC]);
    assert_eq!(data(deep), vec![0x12, 0x56, 0x9A, 255]);
    // Run-length coded samples.
    let packed = flat(1, (3, 1), 8, 1, &[0, 1, 0, 2, 254, 5]);
    assert_eq!(data(packed), vec![5, 5, 5, 255, 5, 5, 5, 255, 5, 5, 5, 255]);
}

#[test]
fn an_indexed_image_takes_the_colours_of_its_palette() {
    let mut w = create_writer_default();
    head(&mut w, 1, 1, (2, 1), 8, 2);
    write_uint32(&mut w, 768);
    for base in [0u32, 100, 200] {
        for i in 0..256u32 {
            write_uint8(&mut w, (base + i) as u8);
        }
    }
    write_zeros(&mut w, 8);
    write_bytes(&mut w, Some(&[0, 1, 0, 3, 1, 1, 3]));
    let psd = read_psd(&get_writer_buffer(&w), &settings()).unwrap();
    let palette = psd.palette.unwrap();
    assert_eq!(palette.len(), 256);
    assert_eq!(palette[3], PaletteColor { r: 3, g: 103, b: 203 });
    assert_eq!(psd.image_data.unwrap().data, vec![1, 101, 201, 255, 3, 103, 203, 255]);
}

/// A layer of one pixel with channels of raw samples of the given depth.
fn raw_layer(w: &mut PsdWriter, channels: &[(ChannelId, Vec<u8>)]) {
    write_int16(w, 1);
    for side in [0u32, 0, 1, 1] {
        write_uint32(w, side);
    }
    write_uint16(w, channels.len() as u16);
    for (id, data) in channels {
        write_int16(w, channel_number(*id));
        write_uint32(w, 2 + data.len() as u32);
    }
    write_signature(w, "8BIM");
    write_signature(w, "norm");
    for byte in [255u8, 0, 0, 0] {
        write_uint8(w, byte);
    }
    write_section(
        w,
        1,
        |w: &mut PsdWriter| {
            write_zeros(w, 8);
            write_pascal_string(w, "deep", 4);
        },
        false,
        false,
    );
    for (_, data) in channels {
        write_uint16(w, 0);
        write_bytes(w, Some(data));
    }
}

#[test]
fn layers_of_deep_documents_are_in_a_block() {
    let mut w = create_writer_default();
    head(&mut w, 1, 3, (1, 1), 16, 3);
    write_zeros(&mut w, 8);
    write_section(
        &mut w,
        2,
        |w: &mut PsdWriter| {
            write_zeros(w, 8);
            write_signature(w, "8BIM");
            write_signature(w, "Lr16");
            let channels = [
                (ChannelId::Transparency, vec![0x80, 0]),
                (ChannelId::Color0, vec![0x11, 0xFF]),
                (ChannelId::Color1, vec![0x22, 0xFF]),
                (ChannelId::Color2, vec![0x33, 0xFF]),
            ];
            write_section(w, 2, |w: &mut PsdWriter| raw_layer(w, &channels), false, false);
        },
        false,
        false,
    );
    write_uint16(&mut w, 0);
    write_bytes(&mut w, Some(&[1, 1, 2, 2, 3, 3]));
    let psd = read_psd(&get_writer_buffer(&w), &settings()).unwrap();
    let layers = psd.children.unwrap();
    assert_eq!(layers.len(), 1);
    assert_eq!(layers[0].additional_info.name.as_deref(), Some("deep"));
    assert_eq!(layers[0].image_data.as_ref().unwrap().data, vec![0x11, 0x22, 0x33, 0x80]);
    assert_eq!(psd.image_data.unwrap().data, vec![1, 2, 3, 255]);
}

#[test]
fn a_rectangle_turned_inside_out_is_refused() {
    let psd = document(2, 2, vec![pixels_at(0, 0, noise(1, 1))]);
    let bytes = write_psd(&psd, &WriteOptions::default());
    // The record of the layer starts with its rectangle: one pixel at the origin.
    let record: [u8; 16] = [0, 0, 0, 0, 0, 0, 0, 0, 0, 0, 0, 1, 0, 0, 0, 1];
    let at = bytes.windows(16).position(|part| part == record).expect("a record");
    let mut turned = bytes.clone();
    turned[at + 3] = 5;
    assert_eq!(
        read_psd(&turned, &settings()).unwrap_err(),
        ReadError::InvalidBoxSize { kind: "layer".to_string(), width: 1, height: -4 }
    );
}

#[test]
fn a_group_head_in_a_layer_list_makes_a_group() {
    // A divider that stands in a layer is written like any other and closes over
    // the layers behind it when it is read.
    let mut head = Layer::default();
    head.additional_info.name = Some("group".to_string());
    head.additional_info.section_divider = Some(SectionDivider {
        divider_type: SectionDividerType::OpenFolder,
        key: Some("pass".to_string()),
        sub_type: Some(0),
    });
    let again = back(&document(1, 1, vec![head]), WriteOptions::default());
    let group = &again.children.as_ref().unwrap()[0];
    assert_eq!(group.children.as_ref().map(|c| c.len()), Some(0));
    assert_eq!(group.opened, Some(true));
}

#[test]
fn the_image_may_be_a_canvas() {
    let psd = Psd {
        width: 1,
        height: 1,
        canvas: Some(solid(1, 1, [3, 2, 1, 255])),
        ..Default::default()
    };
    let mut w = create_writer_default();
    write_psd_to_writer(&mut w, &psd, &WriteOptions::default());
    let again = read_psd(&get_writer_buffer(&w), &ReadOptions::default()).unwrap();
    assert_eq!(again.canvas, psd.canvas);
    assert_eq!(again.image_data, None);
}
