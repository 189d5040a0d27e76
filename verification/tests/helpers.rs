//! Blend mode keys, bitmaps and enumeration codecs.

use ag_psd::helpers::{
    create_canvas, create_canvas_from_data, create_image_data, decode_bitmap, from_blend_mode,
    has_alpha, image_data_to_canvas, initialize_canvas, offset_for_channel, reset_image_data,
    rev_map, rle_scratch_size, to_blend_mode, write_data_raw, write_data_rle,
    write_data_zip_without_prediction, ColorSpace, Dict, EnumCodec, LayerMaskFlags, MaskParams,
    LARGE_ADDITIONAL_INFO_KEYS, LAYER_COLORS, MOCK_HANDLERS, RAW_IMAGE_DATA,
};
use ag_psd::psd::{BlendMode, ChannelId, LayerColor, PixelData};
use flate2::read::ZlibDecoder;
use std::io::Read;

#[test]
fn blend_mode_round_trip_all_entries() {
    let all = [
        BlendMode::PassThrough,
        BlendMode::Normal,
        BlendMode::Dissolve,
        BlendMode::Darken,
        BlendMode::Multiply,
        BlendMode::ColorBurn,
        BlendMode::LinearBurn,
        BlendMode::DarkerColor,
        BlendMode::Lighten,
        BlendMode::Screen,
        BlendMode::ColorDodge,
        BlendMode::LinearDodge,
        BlendMode::LighterColor,
        BlendMode::Overlay,
        BlendMode::SoftLight,
        BlendMode::HardLight,
        BlendMode::VividLight,
        BlendMode::LinearLight,
        BlendMode::PinLight,
        BlendMode::HardMix,
        BlendMode::Difference,
        BlendMode::Exclusion,
        BlendMode::Subtract,
        BlendMode::Divide,
        BlendMode::Hue,
        BlendMode::Saturation,
        BlendMode::Color,
        BlendMode::Luminosity,
    ];
    for mode in all {
        let key = from_blend_mode(mode);
        assert_eq!(key.len(), 4, "key must be 4 chars: {key:?}");
        assert_eq!(to_blend_mode(key), Some(mode), "round trip failed for {key:?}");
    }
}

#[test]
fn blend_mode_spacey_keys() {
    assert_eq!(to_blend_mode("mul "), Some(BlendMode::Multiply));
    assert_eq!(to_blend_mode("div "), Some(BlendMode::ColorDodge));
    assert_eq!(from_blend_mode(BlendMode::Luminosity), "lum ");
    assert_eq!(to_blend_mode("nope"), None);
}

#[test]
fn blend_mode_keys_of_other_lengths_are_unknown() {
    assert_eq!(to_blend_mode(""), None);
    assert_eq!(to_blend_mode("mul"), None);
    assert_eq!(to_blend_mode("norm "), None);
    assert_eq!(to_blend_mode("nör"), None);
}

#[test]
fn offset_for_channel_rgb_and_cmyk() {
    assert_eq!(offset_for_channel(ChannelId::Color0, false), 0);
    assert_eq!(offset_for_channel(ChannelId::Color1, false), 1);
    assert_eq!(offset_for_channel(ChannelId::Color2, false), 2);
    assert_eq!(offset_for_channel(ChannelId::Color3, false), 4);
    assert_eq!(offset_for_channel(ChannelId::Color3, true), 3);
    assert_eq!(offset_for_channel(ChannelId::Transparency, false), 3);
    assert_eq!(offset_for_channel(ChannelId::Transparency, true), 4);
    assert_eq!(offset_for_channel(ChannelId::UserMask, false), -1);
    assert_eq!(offset_for_channel(ChannelId::RealUserMask, true), -2);
}

#[test]
fn has_alpha_detects_non_opaque() {
    let opaque = PixelData { width: 2, height: 1, data: vec![1, 2, 3, 255, 4, 5, 6, 255] };
    assert!(!has_alpha(&opaque));

    let translucent = PixelData { width: 2, height: 1, data: vec![1, 2, 3, 255, 4, 5, 6, 128] };
    assert!(has_alpha(&translucent));
}

#[test]
fn reset_image_data_sets_black_opaque() {
    let mut pd = PixelData { width: 2, height: 1, data: vec![9, 9, 9, 9, 9, 9, 9, 9] };
    reset_image_data(&mut pd);
    assert_eq!(pd.data, vec![0, 0, 0, 255, 0, 0, 0, 255]);
}

#[test]
fn decode_bitmap_packs_bits() {
    let input = [0b1010_0000u8];
    let mut output = vec![0u8; 8 * 4];
    decode_bitmap(&input, &mut output, 8, 1);
    assert_eq!(output[0], 0);
    assert_eq!(output[4], 255);
    assert_eq!(output[8], 0);
    assert_eq!(output[12], 255);
    assert_eq!(output[3], 255);
}

#[test]
fn decode_bitmap_starts_every_row_at_a_byte() {
    let input = [0b1000_0000u8, 0b0100_0000u8];
    let mut output = vec![7u8; 3 * 2 * 4];
    decode_bitmap(&input, &mut output, 3, 2);
    let reds: Vec<u8> = output.chunks(4).map(|p| p[0]).collect();
    assert_eq!(reds, vec![0, 255, 255, 255, 0, 255]);
}

#[test]
fn write_data_raw_extracts_channel() {
    let pd = PixelData { width: 2, height: 1, data: vec![10, 20, 30, 40, 50, 60, 70, 80] };
    assert_eq!(write_data_raw(&pd, 0, 2, 1), Some(vec![10, 50]));
    assert_eq!(write_data_raw(&pd, 3, 2, 1), Some(vec![40, 80]));
    assert_eq!(write_data_raw(&pd, 0, 0, 1), None);
}

#[test]
fn write_data_raw_of_too_few_bytes_is_nothing() {
    let pd = PixelData { width: 2, height: 1, data: vec![10, 20, 30, 40, 50] };
    assert_eq!(write_data_raw(&pd, 1, 2, 1), None);
}

#[test]
fn zip_without_prediction_round_trips() {
    let pd = PixelData {
        width: 4,
        height: 1,
        data: vec![1, 0, 0, 0, 2, 0, 0, 0, 3, 0, 0, 0, 4, 0, 0, 0],
    };
    let out = write_data_zip_without_prediction(&pd, &[0]).unwrap();
    let mut decoder = ZlibDecoder::new(&out[..]);
    let mut decoded = Vec::new();
    decoder.read_to_end(&mut decoded).unwrap();
    assert_eq!(decoded, vec![1, 2, 3, 4]);
}

#[test]
fn zip_of_several_channels_is_one_stream_after_the_other() {
    let pd = PixelData { width: 2, height: 1, data: vec![1, 2, 3, 4, 5, 6, 7, 8] };
    let first = write_data_zip_without_prediction(&pd, &[1]).unwrap();
    let second = write_data_zip_without_prediction(&pd, &[3]).unwrap();
    let both = write_data_zip_without_prediction(&pd, &[1, 3]).unwrap();
    assert_eq!(both, [first, second].concat());
    assert_eq!(write_data_zip_without_prediction(&pd, &[]), None);
}

#[test]
fn rev_map_swaps() {
    let mut m = Dict::new();
    m.insert("a".into(), "1".into());
    m.insert("b".into(), "2".into());
    let r = rev_map(&m);
    assert_eq!(r.get("1"), Some(&"a".to_string()));
    assert_eq!(r.get("2"), Some(&"b".to_string()));
}

#[test]
fn dict_keeps_the_last_value_of_a_key() {
    let mut m = Dict::new();
    m.insert("a".into(), "1".into());
    m.insert("a".into(), "2".into());
    assert_eq!(m.get("a"), Some(&"2".to_string()));
    assert_eq!(m.get("b"), None);
}

#[test]
fn enum_codec_encode_decode() {
    let mut map = Dict::new();
    map.insert("alpha".into(), "Alph".into());
    map.insert("beta".into(), "Beta".into());
    let codec = EnumCodec::new("Enum", "alpha", map);

    assert_eq!(codec.encode(Some("beta")).unwrap(), "Enum.Beta");
    assert_eq!(codec.encode(None).unwrap(), "Enum.Alph");
    assert!(codec.encode(Some("gamma")).is_err());

    assert_eq!(codec.decode("Enum.Beta").unwrap(), "beta");
    assert_eq!(codec.decode("Enum.Alph").unwrap(), "alpha");
    assert_eq!(codec.decode("Enum").unwrap(), "alpha");
    assert!(codec.decode("Enum.Zzzz").is_err());
}

#[test]
fn enum_codec_decodes_long_forms() {
    let mut map = Dict::new();
    map.insert("normal".into(), "Nrml".into());
    map.insert("color burn".into(), "CBrn".into());
    let codec = EnumCodec::new("BlnM", "normal", map);
    assert_eq!(codec.decode("BlnM.normal").unwrap(), "normal");
    assert_eq!(codec.decode("BlnM.color burn").unwrap(), "color burn");
    assert_eq!(codec.decode("BlnM.colorBurn").unwrap(), "color burn");
    assert_eq!(codec.decode("BlnM.CBrn").unwrap(), "color burn");
}

#[test]
fn rle_of_a_short_buffer_is_cut_off() {
    let pd = PixelData { width: 2, height: 1, data: vec![1, 0, 0, 0, 2, 0, 0, 0] };
    let room = rle_scratch_size(2, 1, 1, false);
    assert_eq!(room, 6);
    let mut buffer = vec![0u8; room];
    assert_eq!(write_data_rle(&mut buffer, &pd, &[0], false), Some(vec![0, 3, 1, 1, 2]));
    assert_eq!(buffer, vec![0, 3, 1, 1, 2, 0]);
    let mut short = vec![9u8; 3];
    assert_eq!(write_data_rle(&mut short, &pd, &[0], false), Some(vec![0, 3, 1]));
    let mut large = vec![0u8; 16];
    assert_eq!(write_data_rle(&mut large, &pd, &[0], true), Some(vec![0, 0, 0, 3, 1, 1, 2]));
}

#[test]
fn rle_of_an_empty_bitmap_is_nothing() {
    let pd = PixelData { width: 0, height: 3, data: vec![] };
    let mut buffer = vec![1u8; 4];
    assert_eq!(write_data_rle(&mut buffer, &pd, &[0], false), None);
    assert_eq!(buffer, vec![1, 1, 1, 1]);
}

#[test]
fn scratch_sizes_count_the_table_of_every_channel() {
    assert_eq!(rle_scratch_size(10, 3, 1, false), 3 * (2 + 20));
    assert_eq!(rle_scratch_size(10, 3, 4, true), 4 * 3 * (4 + 20));
    assert_eq!(rle_scratch_size(0, 0, 4, true), 0);
}

#[test]
fn canvases_are_bitmaps() {
    let canvas = create_canvas(2, 1);
    assert_eq!(canvas, PixelData { width: 2, height: 1, data: vec![0; 8] });
    assert_eq!(create_image_data(1, 2), PixelData { width: 1, height: 2, data: vec![0; 8] });
    let pd = PixelData { width: 1, height: 1, data: vec![1, 2, 3, 4] };
    assert_eq!(image_data_to_canvas(&pd), pd);
    assert_eq!(create_canvas_from_data(&[1, 2]), PixelData { width: 100, height: 100, data: vec![0; 40000] });
    initialize_canvas();
}

#[test]
fn constants_of_the_format() {
    assert!(!MOCK_HANDLERS);
    assert!(!RAW_IMAGE_DATA);
    assert_eq!(LAYER_COLORS[0], LayerColor::NoColor);
    assert_eq!(LAYER_COLORS.len(), 8);
    assert_eq!(LARGE_ADDITIONAL_INFO_KEYS[0], "LMsk");
    assert_eq!(ColorSpace::Lab.code(), 7);
    assert_eq!(LayerMaskFlags::LayerMaskDisabled.code(), 2);
    assert_eq!(MaskParams::VectorMaskFeather.code(), 8);
}
