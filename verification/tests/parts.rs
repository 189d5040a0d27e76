//! The parts of a document, each written and read back.

use ag_psd::composite::{indexed_to_rgb, read_image_data};
use ag_psd::document::read_psd_from_reader;
use ag_psd::document_writer::write_psd;
use ag_psd::error::ReadError;
use ag_psd::header::{read_header, write_header, Header};
use ag_psd::helpers::Bounds;
use ag_psd::info::{read_additional_layer_info, read_blocks, write_additional_info};
use ag_psd::layer_tree::{add_children, build_layer_tree};
use ag_psd::layer_writer::{get_largest_layer_size, write_layer_info};
use ag_psd::mask::{
    check_box, read_global_layer_mask_info, read_layer_blending_ranges, read_layer_mask_data,
    write_global_layer_mask_info, write_layer_blending_ranges, write_layer_mask_data,
};
use ag_psd::palette::{read_palette, write_palette};
use ag_psd::pattern::{copy_channel_to_rgba, read_pattern};
use ag_psd::pattern_writer::write_pattern;
use ag_psd::psd::{
    BlendMode, BlendingRange, BlendingRanges, ChannelId, ColorMode, GlobalLayerMaskInfo,
    InfoBlock, Layer, LayerAdditionalInfo, LayerMaskData, PaletteColor, PatternBounds,
    PatternInfo, PixelData, Psd, ReadOptions, ResourceBlock, SectionDivider, SectionDividerType,
    WriteOptions,
};
use ag_psd::reader::{PsdReader, Section};
use ag_psd::record_writer::write_layer_record;
use ag_psd::records::{
    channel_id_from_i16, compression_from_u16, read_layer_info, read_layer_record, ChannelInfo,
};
use ag_psd::resources::{read_resources, write_resources};
use ag_psd::writer::{
    create_writer_default, get_writer_buffer, write_bytes, write_signature, write_uint16,
    write_uint32, PsdWriter,
};

fn written(func: impl FnOnce(&mut PsdWriter)) -> Vec<u8> {
    let mut w = create_writer_default();
    func(&mut w);
    get_writer_buffer(&w)
}

#[test]
fn heads_are_read_back() {
    for large in [false, true] {
        let header = Header {
            large,
            channels: 4,
            height: 20,
            width: 30000,
            bits_per_channel: 8,
            color_mode: ColorMode::Rgb,
        };
        let bytes = written(|w| write_header(w, header));
        assert_eq!(bytes.len(), 26);
        assert_eq!(bytes[5], if large { 2 } else { 1 });
        let mut r = PsdReader::new(&bytes, None, None);
        assert_eq!(read_header(&mut r), Ok(header));
        assert_eq!(r.large, large);
        assert_eq!(r.offset, 26);
    }
}

#[test]
fn palettes_are_read_back_filled_up() {
    let colors = vec![PaletteColor { r: 1, g: 2, b: 3 }, PaletteColor { r: 4, g: 5, b: 6 }];
    let bytes = written(|w| write_palette(w, &Some(colors.clone())));
    assert_eq!(bytes.len(), 4 + 768);
    let mut r = PsdReader::new(&bytes, None, None);
    let read = read_palette(&mut r, ColorMode::Indexed).unwrap().unwrap();
    assert_eq!(read.len(), 256);
    assert_eq!(read[..2], colors[..]);
    assert_eq!(read[2], PaletteColor { r: 0, g: 0, b: 0 });
    assert_eq!(r.offset, bytes.len());

    let mut rgb = PsdReader::new(&bytes, None, None);
    assert_eq!(read_palette(&mut rgb, ColorMode::Rgb), Ok(None));
    assert_eq!(rgb.offset, bytes.len());

    let none = written(|w| write_palette(w, &None));
    assert_eq!(none, vec![0; 4]);
    let short = [0, 0, 0, 1, 9];
    let mut r = PsdReader::new(&short, None, None);
    let err = read_palette(&mut r, ColorMode::Indexed).unwrap_err();
    assert_eq!(err, ReadError::StrictViolation("Invalid color palette size".to_string()));
}

#[test]
fn resources_are_read_back() {
    let list = vec![
        ResourceBlock { id: 1005, data: vec![1, 2, 3] },
        ResourceBlock { id: 1036, data: vec![] },
        ResourceBlock { id: 4000, data: vec![7; 10] },
    ];
    let bytes = written(|w| write_resources(w, &list));
    // A payload of odd length has a byte of padding behind it.
    assert_eq!(&bytes[4..20], b"8BIM\x03\xED\0\0\0\0\0\x03\x01\x02\x03\0");
    let mut r = PsdReader::new(&bytes, None, None);
    assert_eq!(read_resources(&mut r).unwrap(), list);
    assert_eq!(r.offset, bytes.len());
}

#[test]
fn blending_ranges_are_read_back() {
    let ranges = BlendingRanges {
        composite_gray_blend_source: 1,
        composite_graph_blend_destination_range: 2,
        ranges: vec![
            BlendingRange { source_range: 3, dest_range: 4 },
            BlendingRange { source_range: 5, dest_range: 0xFFFF_FFFF },
        ],
    };
    let bytes = written(|w| write_layer_blending_ranges(w, &Some(ranges.clone())));
    assert_eq!(bytes.len(), 4 + 24);
    let mut r = PsdReader::new(&bytes, None, None);
    assert_eq!(read_layer_blending_ranges(&mut r), Ok(Some(ranges)));
}

#[test]
fn the_global_mask_is_read_back() {
    let info = GlobalLayerMaskInfo {
        overlay_color_space: 1,
        color_space1: 2,
        color_space2: 3,
        color_space3: 4,
        color_space4: 5,
        opacity: 100,
        kind: 128,
    };
    let bytes = written(|w| write_global_layer_mask_info(w, Some(info)));
    assert_eq!(bytes.len(), 4 + 16);
    let mut r = PsdReader::new(&bytes, None, None);
    assert_eq!(read_global_layer_mask_info(&mut r), Ok(Some(info)));
    let none = written(|w| write_global_layer_mask_info(w, None));
    let mut r = PsdReader::new(&none, None, None);
    assert_eq!(read_global_layer_mask_info(&mut r), Ok(None));
}

#[test]
fn masks_are_read_back() {
    let mut info = LayerAdditionalInfo::default();
    info.mask = Some(LayerMaskData {
        default_color: Some(255),
        from_vector_data: Some(true),
        user_mask_density: Some(9),
        vector_mask_density: Some(8),
        vector_mask_feather: Some(0.5f64.to_bits()),
        ..Default::default()
    });
    let bounds = Bounds { top: -1, left: 2, bottom: 3, right: 4 };
    let bytes = written(|w| write_layer_mask_data(w, &info, Some(bounds), None));
    let mut read = LayerAdditionalInfo::default();
    let mut r = PsdReader::new(&bytes, None, None);
    read_layer_mask_data(&mut r, &mut read).unwrap();
    let mask = read.mask.expect("a mask");
    assert_eq!((mask.top, mask.left, mask.bottom, mask.right), (Some(-1), Some(2), Some(3), Some(4)));
    assert_eq!(mask.default_color, Some(255));
    assert_eq!(mask.from_vector_data, Some(true));
    assert_eq!((mask.user_mask_density, mask.vector_mask_density), (Some(9), Some(8)));
    assert_eq!(mask.user_mask_feather, None);
    assert_eq!(mask.vector_mask_feather, Some(0.5f64.to_bits()));
    assert_eq!(read.real_mask, None);
    assert_eq!(r.offset, bytes.len());
}

#[test]
fn rectangles_have_limits() {
    let sides = |width: i32, height: i32| Bounds { top: 0, left: 0, right: width, bottom: height };
    assert_eq!(check_box(sides(30000, 30000), "layer", false), Ok(()));
    assert_eq!(
        check_box(sides(30001, 1), "mask", false),
        Err(ReadError::InvalidBoxSize { kind: "mask".to_string(), width: 30001, height: 1 })
    );
    assert_eq!(check_box(sides(300000, 0), "layer", true), Ok(()));
    let far = Bounds { top: i32::MIN, left: 0, right: 0, bottom: i32::MAX };
    assert_eq!(
        check_box(far, "layer", true),
        Err(ReadError::InvalidBoxSize { kind: "layer".to_string(), width: 0, height: 4294967295 })
    );
    assert_eq!(
        check_box(sides(-1, 0), "layer", true),
        Err(ReadError::InvalidBoxSize { kind: "layer".to_string(), width: -1, height: 0 })
    );
}

#[test]
fn blocks_are_read_back_in_order() {
    let mut info = LayerAdditionalInfo::default();
    info.blocks = vec![
        InfoBlock { key: 0x6C79_6964, data: vec![1, 2, 3, 4] },
        InfoBlock { key: 0x4C4D_736B, data: vec![5, 6, 7, 8] },
        InfoBlock { key: 0x6C79_6964, data: vec![] },
    ];
    info.section_divider = Some(SectionDivider {
        divider_type: SectionDividerType::ClosedFolder,
        key: Some("mul ".to_string()),
        sub_type: Some(1),
    });
    for large in [false, true] {
        let mut bytes = written(|w| write_additional_info(w, &info, large));
        let length = bytes.len();
        bytes.extend([0xEE; 4]);
        let mut r = PsdReader::new(&bytes, None, None);
        r.large = large;
        let mut read = LayerAdditionalInfo::default();
        read_blocks(&mut r, Section { length, end: length }, &mut read).unwrap();
        assert_eq!(read.section_divider, info.section_divider);
        assert_eq!(read.blocks, info.blocks);
        assert_eq!(r.offset, length);
    }
}

#[test]
fn a_block_is_found_a_few_bytes_off_its_place() {
    let bytes = written(|w| {
        write_bytes(w, Some(&[0, 0]));
        write_signature(w, "8BIM");
        write_signature(w, "lyid");
        write_uint32(w, 2);
        write_uint16(w, 0x0102);
    });
    let mut info = LayerAdditionalInfo::default();
    let mut r = PsdReader::new(&bytes, None, None);
    read_additional_layer_info(&mut r, &mut info).unwrap();
    assert_eq!(info.blocks, vec![InfoBlock { key: 0x6C79_6964, data: vec![1, 2] }]);

    let nowhere = [1u8; 40];
    let mut r = PsdReader::new(&nowhere, None, None);
    let err = read_additional_layer_info(&mut r, &mut info).unwrap_err();
    assert!(matches!(err, ReadError::InvalidSignature { .. }));
}

fn named(name: &str) -> Layer {
    let mut layer = Layer::default();
    layer.additional_info.name = Some(name.to_string());
    layer
}

#[test]
fn groups_are_flattened_and_rebuilt() {
    let mut group = named("group");
    group.blend_mode = Some(BlendMode::Screen);
    group.opened = Some(false);
    group.children = Some(vec![named("a"), named("b")]);
    let children = vec![named("x"), group];
    let mut flat = Vec::new();
    add_children(&mut flat, &children);
    let names: Vec<&str> =
        flat.iter().map(|l| l.additional_info.name.as_deref().unwrap()).collect();
    assert_eq!(names, ["x", "</Layer group>", "a", "b", "group"]);
    let divider = flat[4].additional_info.section_divider.as_ref().unwrap();
    assert_eq!(divider.divider_type, SectionDividerType::ClosedFolder);
    assert_eq!(divider.key.as_deref(), Some("scrn"));
    let again = build_layer_tree(flat);
    assert_eq!(again.len(), 2);
    assert_eq!(again[0].additional_info.name.as_deref(), Some("x"));
    assert_eq!(again[1].opened, Some(false));
    assert_eq!(again[1].blend_mode, Some(BlendMode::Screen));
    let inner = again[1].children.as_ref().unwrap();
    assert_eq!(inner.len(), 2);
    assert_eq!(inner[1].additional_info.name.as_deref(), Some("b"));
}

fn opaque_pixels(w: u32, h: u32) -> PixelData {
    PixelData { width: w, height: h, data: [9, 8, 7, 255].repeat((w * h) as usize) }
}

#[test]
fn a_record_is_read_back() {
    let mut layer = named("record");
    layer.left = Some(5);
    layer.image_data = Some(opaque_pixels(2, 3));
    layer.opacity = Some(3);
    layer.clipping = Some(true);
    let mut scratch = vec![0u8; 200];
    let coded =
        ag_psd::channels::get_channels(&mut scratch, &layer, false, &WriteOptions::default(), false);
    let bytes = written(|w| write_layer_record(w, &coded, false));
    let mut r = PsdReader::new(&bytes, None, None);
    let (read, channels) = read_layer_record(&mut r).unwrap();
    assert_eq!(r.offset, bytes.len());
    assert_eq!(read.additional_info.name.as_deref(), Some("record"));
    assert_eq!((read.top, read.left, read.bottom, read.right), (Some(0), Some(5), Some(3), Some(7)));
    assert_eq!(read.opacity, Some(3));
    assert_eq!(read.clipping, Some(true));
    let lengths: Vec<(i16, u32)> = channels.iter().map(|c: &ChannelInfo| (c.id, c.length)).collect();
    assert_eq!(lengths.len(), 4);
    for (i, channel) in coded.channels.iter().enumerate() {
        assert_eq!(lengths[i].1 as usize, channel.length);
    }
    assert_eq!(lengths[0].0, -1);
}

#[test]
fn a_list_of_layers_is_read_back() {
    let mut one = named("one");
    one.image_data = Some(opaque_pixels(2, 2));
    let two = named("two");
    let layers = vec![one, two];
    let mut w = create_writer_default();
    let room = get_largest_layer_size(&layers, false);
    assert!(room > 0);
    w.temp_buffer = Some(vec![0; room]);
    write_layer_info(&mut w, &layers, true, &WriteOptions::default(), false);
    let bytes = get_writer_buffer(&w);
    // Behind the length, a negative count says that the image has an opacity.
    assert_eq!(&bytes[4..6], &[0xFF, 0xFE]);
    let mut r = PsdReader::new(&bytes, Some(4), Some(bytes.len() - 4));
    let read = read_layer_info(&mut r, ColorMode::Rgb, 8).unwrap();
    assert!(r.global_alpha);
    assert_eq!(read.len(), 2);
    assert_eq!(read[0].canvas, Some(opaque_pixels(2, 2)));
    assert_eq!(read[1].additional_info.name.as_deref(), Some("two"));
}

#[test]
fn numbers_of_channels_and_compressions() {
    assert_eq!(channel_id_from_i16(-1), ChannelId::Transparency);
    assert_eq!(channel_id_from_i16(-3), ChannelId::RealUserMask);
    assert_eq!(channel_id_from_i16(2), ChannelId::Color2);
    assert_eq!(compression_from_u16(1), ag_psd::psd::Compression::RleCompressed);
    assert_eq!(compression_from_u16(3), ag_psd::psd::Compression::ZipWithPrediction);
}

fn checkered() -> PatternInfo {
    PatternInfo {
        name: "checks".to_string(),
        id: "b7334da0-122f-11d4-8bb5-e27e45023b5f".to_string(),
        x: -3,
        y: 4,
        bounds: PatternBounds { x: 1, y: 2, w: 3, h: 2 },
        data: (0..24).map(|i| if i % 4 == 3 { 255 } else { i as u8 }).collect(),
    }
}

#[test]
fn patterns_are_read_back() {
    let pattern = checkered();
    let bytes = written(|w| write_pattern(w, &pattern));
    let mut r = PsdReader::new(&bytes, None, None);
    assert_eq!(read_pattern(&mut r), Ok(pattern));
    assert_eq!(r.offset, bytes.len());
}

#[test]
fn the_opacity_of_a_pattern_is_not_read_back() {
    let mut pattern = checkered();
    pattern.data[3] = 7;
    let bytes = written(|w| write_pattern(w, &pattern));
    let mut r = PsdReader::new(&bytes, None, None);
    assert_eq!(read_pattern(&mut r), Ok(checkered()));
}

#[test]
fn patterns_that_break_the_rules() {
    let good = written(|w| write_pattern(w, &checkered()));
    let error = |bytes: Vec<u8>| {
        let mut r = PsdReader::new(&bytes, None, None);
        read_pattern(&mut r).unwrap_err()
    };
    let mut version = good.clone();
    version[7] = 2;
    assert_eq!(error(version), ReadError::StrictViolation("Invalid pattern version: 2".to_string()));
    let mut mode = good.clone();
    mode[11] = 4;
    assert_eq!(
        error(mode),
        ReadError::StrictViolation("Unsupported pattern color mode: 4".to_string())
    );
    let mut r = PsdReader::new(&good, None, None);
    r.budget = Some(10);
    assert_eq!(
        read_pattern(&mut r).unwrap_err(),
        ReadError::ExceededMemoryLimit { requested: 24, available: 10 }
    );
}

#[test]
fn samples_of_a_pattern_are_placed_inside_it() {
    let mut data = vec![0u8; 2 * 2 * 4];
    copy_channel_to_rgba(&vec![1, 2], &mut data, 2, 1, 2, 0, 1, 0);
    assert_eq!(data, [0, 0, 0, 0, 0, 0, 0, 0, 1, 0, 0, 0, 2, 0, 0, 0]);
}

#[test]
fn indexed_samples_take_their_colours() {
    let palette = vec![PaletteColor { r: 1, g: 2, b: 3 }, PaletteColor { r: 4, g: 5, b: 6 }];
    let mut image = vec![0u8; 12];
    indexed_to_rgb(&vec![1, 0, 9], &mut image, 3, &palette);
    assert_eq!(image[..8], [4, 5, 6, 255, 1, 2, 3, 255]);
    assert_eq!(image[8..], [0, 0, 0, 0]);
}

#[test]
fn an_indexed_image_needs_a_palette() {
    let header = Header {
        large: false,
        channels: 1,
        height: 1,
        width: 1,
        bits_per_channel: 8,
        color_mode: ColorMode::Indexed,
    };
    let bytes = [0u8, 0, 1];
    let mut r = PsdReader::new(&bytes, None, None);
    let err = read_image_data(&mut r, header, &None).unwrap_err();
    assert_eq!(err, ReadError::StrictViolation("Missing color palette".to_string()));
}

#[test]
fn a_reader_brings_its_own_settings() {
    let psd = Psd {
        width: 1,
        height: 1,
        image_data: Some(opaque_pixels(1, 1)),
        ..Default::default()
    };
    let bytes = write_psd(&psd, &WriteOptions::default());
    let mut r = PsdReader::new(&bytes, None, None);
    r.options = ReadOptions { use_image_data: Some(true), ..ReadOptions::default() };
    let read = read_psd_from_reader(&mut r).unwrap();
    assert_eq!(read.image_data, psd.image_data);
    assert_eq!(r.offset, bytes.len());
}
