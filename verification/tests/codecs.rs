//! Rows, channels and single samples.

use ag_psd::channels::get_channels;
use ag_psd::codec::{
    bytes_to_u8_channel, copy_channel_to_pixel_data, decode_predicted_u16, decode_predicted_u8,
    read_data, read_data_raw, read_data_zip, store_inflated,
};
use ag_psd::decode::cmyk_to_rgb;
use ag_psd::helpers::{
    write_data_rle, write_data_zip_without_prediction, Bounds,
};
use ag_psd::matte::{add_matte, matte_sample, remove_matte, unmatte_sample};
use ag_psd::packbits::{pack_row, unpack_row};
use ag_psd::pixels::DecodeTarget;
use ag_psd::psd::{ChannelId, Compression, Layer, PixelData, WriteOptions};
use ag_psd::reader::{read_data_rle, PsdReader};
use ag_psd::samples::float_to_byte;
use ag_psd::trim::{crop_image_data, is_col_empty, is_row_empty, trim_data};
use ag_psd::zlib::inflate;
use flate2::write::{DeflateEncoder, ZlibEncoder};
use std::io::Write;

fn packed(row: &[u8]) -> Vec<u8> {
    let mut out = Vec::new();
    pack_row(row, &mut out);
    out
}

fn unpacked(code: &[u8], width: usize) -> Vec<u8> {
    let mut out = Vec::new();
    unpack_row(code, width, &mut out);
    out
}

#[test]
fn runs_and_literals() {
    assert_eq!(packed(&[]), vec![]);
    assert_eq!(packed(&[5]), vec![0, 5]);
    assert_eq!(packed(&[1, 2, 3]), vec![2, 1, 2, 3]);
    assert_eq!(packed(&[7, 7, 7]), vec![254, 7]);
    assert_eq!(packed(&[9; 200])[..2], [129, 9]);
}

#[test]
fn every_row_is_unpacked_to_what_it_was() {
    let rows: Vec<Vec<u8>> = vec![
        vec![],
        vec![1],
        vec![1, 1],
        vec![1, 1, 1, 2, 3, 3, 3, 3, 4],
        vec![0; 1000],
        (0..1000).map(|i| (i % 251) as u8).collect(),
        (0..1000).map(|i| (i / 3) as u8).collect(),
    ];
    for row in rows {
        assert_eq!(unpacked(&packed(&row), row.len()), row);
    }
}

#[test]
fn a_coded_row_never_gives_more_than_its_width() {
    assert_eq!(unpacked(&[129, 9], 5), vec![9; 5]);
    assert_eq!(unpacked(&[3, 1, 2], 5), vec![1, 2]);
    assert_eq!(unpacked(&[3, 1, 2, 3, 4], 2), vec![1, 2]);
    assert_eq!(unpacked(&[128, 0, 6], 5), vec![6]);
}

#[test]
fn run_length_channels_are_read_back() {
    let pixels = PixelData { width: 3, height: 2, data: (0..24).collect() };
    let mut scratch = vec![0u8; 100];
    for large in [false, true] {
        let code = write_data_rle(&mut scratch, &pixels, &[0, 2], large).unwrap();
        let mut target = DecodeTarget::rgba(3, 2);
        let mut r = PsdReader::new(&code, None, None);
        read_data_rle(&mut r, Some(&mut target), 3, 2, 8, 4, &[0, 2], large).unwrap();
        assert_eq!(r.offset, code.len());
        for i in 0..6 {
            assert_eq!(target.data[4 * i], pixels.data[4 * i]);
            assert_eq!(target.data[4 * i + 2], pixels.data[4 * i + 2]);
            assert_eq!(target.data[4 * i + 1], 0);
        }
    }
}

#[test]
fn run_length_channels_of_all_depths() {
    let float = [0.25f32.to_be_bytes(), 1.0f32.to_be_bytes()].concat();
    let cases: Vec<(u32, Vec<u8>, [u8; 2])> = vec![
        (8, vec![0, 3, 1, 8, 9], [8, 9]),
        (16, vec![0, 5, 3, 0x12, 0xFF, 0x34, 0xFF], [0x12, 0x34]),
        (16, vec![0, 2, 253, 0x55], [0x55, 0x55]),
        (32, [vec![0, 9, 7], float].concat(), [64, 255]),
    ];
    for (depth, code, samples) in cases {
        let mut target = DecodeTarget::rgba(2, 1);
        let mut r = PsdReader::new(&code, None, None);
        read_data_rle(&mut r, Some(&mut target), 2, 1, depth, 4, &[1], false).unwrap();
        assert_eq!([target.data[1], target.data[5]], samples, "{depth}");
        assert_eq!(target.channels, 4);
        assert_eq!(r.offset, code.len());
        let mut target = DecodeTarget::rgba(2, 1);
        let mut r = PsdReader::new(&code, None, None);
        let compression = Compression::RleCompressed;
        read_data(&mut r, code.len(), Some(&mut target), compression, 2, 1, depth, 2, false, 4)
            .unwrap();
        assert_eq!([target.data[2], target.data[6]], samples, "{depth}");
    }
}

#[test]
fn samples_of_a_row_may_share_a_place() {
    let code = vec![0, 3, 1, 8, 9];
    let mut target = DecodeTarget::rgba(2, 1);
    let mut r = PsdReader::new(&code, None, None);
    read_data_rle(&mut r, Some(&mut target), 2, 1, 8, 0, &[0], false).unwrap();
    assert_eq!(target.data, vec![9, 0, 0, 0, 0, 0, 0, 0]);
    assert_eq!(r.offset, code.len());
}

#[test]
fn raw_channels_of_all_depths() {
    assert_eq!(bytes_to_u8_channel(&[1, 2, 3], 8), vec![1, 2, 3]);
    assert_eq!(bytes_to_u8_channel(&[1, 2, 3, 4, 5], 16), vec![1, 3]);
    let half = 0.5f32.to_be_bytes();
    assert_eq!(bytes_to_u8_channel(&half, 32), vec![128]);

    let mut target = DecodeTarget::rgba(2, 1);
    read_data_raw(&[10, 20], Some(&mut target), 8, 4, 1);
    assert_eq!(target.data, vec![0, 10, 0, 0, 0, 20, 0, 0]);

    let mut short = DecodeTarget::rgba(2, 1);
    copy_channel_to_pixel_data(&mut short, &[7], 3, 4);
    assert_eq!(short.data, vec![0, 0, 0, 7, 0, 0, 0, 0]);
}

#[test]
fn differences_are_summed_up_within_a_row() {
    let mut bytes = vec![250, 10, 1, 5, 1, 1];
    decode_predicted_u8(&mut bytes, 3, 2);
    assert_eq!(bytes, vec![250, 4, 5, 5, 6, 7]);
    let mut words: Vec<u16> = vec![0xFFFF, 2, 7, 1];
    decode_predicted_u16(&mut words, 2, 2);
    assert_eq!(words, vec![0xFFFF, 1, 7, 8]);
}

fn zlib(data: &[u8]) -> Vec<u8> {
    let mut encoder = ZlibEncoder::new(Vec::new(), flate2::Compression::best());
    encoder.write_all(data).unwrap();
    encoder.finish().unwrap()
}

fn deflate(data: &[u8]) -> Vec<u8> {
    let mut encoder = DeflateEncoder::new(Vec::new(), flate2::Compression::default());
    encoder.write_all(data).unwrap();
    encoder.finish().unwrap()
}

#[test]
fn both_kinds_of_streams_are_inflated() {
    let data: Vec<u8> = (0..500).map(|i| (i / 9) as u8).collect();
    for stream in [zlib(&data), deflate(&data)] {
        assert_eq!(inflate(&stream, 500), Some((true, data.clone(), stream.len())));
        // What is behind the stream is left alone.
        let longer = [stream.clone(), vec![1, 2, 3]].concat();
        assert_eq!(inflate(&longer, 500), Some((true, data.clone(), stream.len())));
        assert_eq!(inflate(&stream, 900), Some((true, data.clone(), stream.len())));
    }
    assert_eq!(inflate(&[0xFF, 0xFF, 0xFF], 500), None);
    let pixels = PixelData { width: 500, height: 1, data: data.iter().flat_map(|v| [*v; 4]).collect() };
    let stream = write_data_zip_without_prediction(&pixels, &[0]).unwrap();
    assert_ne!(stream, data);
    assert_eq!(inflate(&stream, 500), Some((true, data, stream.len())));
}

#[test]
fn no_more_is_inflated_than_there_is_room_for() {
    let data: Vec<u8> = (0..500).map(|i| (i / 9) as u8).collect();
    let (ended, bytes, _) = inflate(&zlib(&data), 100).unwrap();
    assert!(!ended);
    assert_eq!(bytes, data[..100]);
    let nothing = zlib(&[]);
    assert_eq!(inflate(&nothing, 0), Some((true, vec![], nothing.len())));
    assert_eq!(inflate(&zlib(&data)[..20], 500), None);
}

#[test]
fn a_stream_without_its_end_is_passed_over() {
    let data: Vec<u8> = (0..500).map(|i| (i / 9) as u8).collect();
    let stream = zlib(&data);
    // Every sample is there, but not the checksum behind them.
    assert_eq!(inflate(&stream[..stream.len() - 4], 500), None);
    let mut damaged = stream.clone();
    *damaged.last_mut().unwrap() ^= 1;
    assert_eq!(inflate(&damaged, 500), None);
    assert_eq!(inflate(&damaged, 100), None);
    let short = zlib(&[3, 4]);
    assert_eq!(zipped(&short, 8, false), vec![3, 4]);
    assert_eq!(zipped(&short[..short.len() - 1], 8, false), vec![0, 0]);
}

fn zipped(stream: &[u8], depth: u32, prediction: bool) -> Vec<u8> {
    let mut target = DecodeTarget::rgba(2, 1);
    read_data_zip(stream, Some(&mut target), 2, 1, depth, 4, 0, prediction);
    vec![target.data[0], target.data[4]]
}

#[test]
fn zip_channels_of_all_depths() {
    assert_eq!(zipped(&zlib(&[3, 4]), 8, false), vec![3, 4]);
    assert_eq!(zipped(&zlib(&[3, 4]), 8, true), vec![3, 7]);
    assert_eq!(zipped(&deflate(&[3, 4]), 8, true), vec![3, 7]);
    assert_eq!(zipped(&zlib(&[1, 255, 0, 1]), 16, false), vec![1, 0]);
    assert_eq!(zipped(&zlib(&[1, 255, 0, 1]), 16, true), vec![1, 2]);
    // The bytes of floating point samples are stored plane by plane.
    let a = 0.25f32.to_be_bytes();
    let b = 1.0f32.to_be_bytes();
    let planes = [a[0], b[0], a[1], b[1], a[2], b[2], a[3], b[3]];
    assert_eq!(zipped(&zlib(&planes), 32, false), vec![64, 255]);
    let mut differences = planes;
    for i in (1..8).rev() {
        differences[i] = planes[i].wrapping_sub(planes[i - 1]);
    }
    assert_eq!(zipped(&zlib(&differences), 32, true), vec![64, 255]);
    assert_eq!(zipped(&[1, 2, 3], 8, false), vec![0, 0]);
}

#[test]
fn inflated_samples_are_stored_in_their_channel() {
    let mut target = DecodeTarget::rgba(2, 1);
    store_inflated(vec![5, 6], &mut target, 2, 1, 8, 4, 2, true);
    assert_eq!(target.data, vec![0, 0, 5, 0, 0, 0, 11, 0]);
}

#[test]
fn a_channel_is_read_by_its_compression() {
    let stream = zlib(&[8, 9]);
    let cases: Vec<(Compression, Vec<u8>)> = vec![
        (Compression::RawData, vec![8, 9]),
        (Compression::RleCompressed, vec![0, 3, 1, 8, 9]),
        (Compression::ZipWithoutPrediction, stream),
        (Compression::ZipWithPrediction, zlib(&[8, 1])),
    ];
    for (compression, code) in cases {
        let mut target = DecodeTarget::rgba(2, 1);
        let mut r = PsdReader::new(&code, None, None);
        read_data(&mut r, code.len(), Some(&mut target), compression, 2, 1, 8, 0, false, 4)
            .unwrap();
        assert_eq!((target.data[0], target.data[4]), (8, 9), "{compression:?}");
        assert_eq!(r.offset, code.len());
    }
}

#[test]
fn floating_point_samples_become_bytes_as_f32_does_it() {
    let byte = |v: f32| (v.max(0.0).min(1.0) * 255.0).round() as u8;
    for v in [0.0f32, -0.0, -1.0, 0.5, 1.0, 2.0, 0.001, 1e-40, f32::NAN, f32::INFINITY] {
        assert_eq!(float_to_byte(v.to_bits()), byte(v), "{v}");
    }
    assert_eq!(float_to_byte((-f32::NAN).to_bits()), byte(-f32::NAN));
    // Around every place where the byte changes.
    for step in 0..255u32 {
        let edge = ((step as f32 + 0.5) / 255.0).to_bits();
        for bits in edge - 40..edge + 40 {
            assert_eq!(float_to_byte(bits), byte(f32::from_bits(bits)), "{bits:x}");
        }
    }
    let mut bits: u32 = 1;
    for _ in 0..200_000 {
        bits = bits.wrapping_mul(1_664_525).wrapping_add(1_013_904_223);
        assert_eq!(float_to_byte(bits), byte(f32::from_bits(bits)), "{bits:x}");
    }
}

#[test]
fn mattes_are_those_of_f64() {
    for alpha in 0..=255u8 {
        for sample in 0..=255u8 {
            let (over, without) = if alpha == 0 || alpha == 255 {
                (sample, sample)
            } else {
                let a = alpha as f64 / 255.0;
                let ra = 1.0 / a;
                (
                    (sample as f64 * a + 255.0 * (1.0 - a)) as u8,
                    (sample as f64 * ra + 255.0 * (1.0 - ra)) as u8,
                )
            };
            assert_eq!(matte_sample(sample, alpha), over, "{sample} {alpha}");
            assert_eq!(unmatte_sample(sample, alpha), without, "{sample} {alpha}");
        }
    }
}

#[test]
fn mattes_of_pixels() {
    let mut data = vec![100, 0, 255, 128, 1, 2, 3, 0, 9, 9, 9, 255];
    add_matte(&mut data, 8);
    assert_eq!(data, vec![177, 127, 255, 128, 1, 2, 3, 0, 9, 9, 9, 255]);
    remove_matte(&mut data, 12);
    assert_eq!(data[3..], [128, 1, 2, 3, 0, 9, 9, 9, 255]);
    assert!((99..=100).contains(&data[0]));
}

#[test]
fn inks_become_colours() {
    let mut target = DecodeTarget::wide(1, 1, 5);
    target.data = vec![255, 128, 0, 255, 200];
    assert_eq!(cmyk_to_rgb(&target, false), vec![255, 128, 0, 200]);
    assert_eq!(cmyk_to_rgb(&target, true)[3], 55);
    target.data[3] = 128;
    assert_eq!(cmyk_to_rgb(&target, false), vec![128, 64, 0, 200]);
}

fn spotted() -> PixelData {
    let mut data = vec![0u8; 5 * 4 * 4];
    for (x, y) in [(1usize, 1usize), (3, 2)] {
        data[(y * 5 + x) * 4 + 3] = 1;
    }
    PixelData { width: 5, height: 4, data }
}

#[test]
fn the_box_around_what_is_not_transparent_is_tight() {
    let image = spotted();
    assert!(is_row_empty(&image, 0, 0, 5));
    assert!(!is_row_empty(&image, 1, 0, 5));
    assert!(is_row_empty(&image, 1, 2, 5));
    assert!(is_col_empty(&image, 2, 0, 4));
    assert!(!is_col_empty(&image, 3, 0, 4));
    assert!(is_col_empty(&image, 3, 0, 2));
    assert_eq!(trim_data(&image), Bounds { top: 1, left: 1, bottom: 3, right: 4 });
    let part = crop_image_data(&image, 1, 1, 3, 2);
    assert_eq!((part.width, part.height), (3, 2));
    assert_eq!(part.data.chunks(4).map(|p| p[3]).collect::<Vec<u8>>(), [1, 0, 0, 0, 0, 1]);
    let clear = PixelData { width: 2, height: 2, data: vec![0; 16] };
    let bounds = trim_data(&clear);
    assert!(bounds.top == bounds.bottom);
}

#[test]
fn channels_of_a_layer_are_coded_in_order() {
    let mut layer = Layer::default();
    layer.top = Some(2);
    layer.left = Some(3);
    layer.image_data = Some(PixelData { width: 3, height: 1, data: [1, 2, 3, 4].repeat(3) });
    let mut scratch = vec![0u8; 64];
    let coded = get_channels(&mut scratch, &layer, false, &WriteOptions::default(), false);
    assert_eq!((coded.top, coded.left, coded.bottom, coded.right), (2, 3, 3, 6));
    let ids: Vec<ChannelId> = coded.channels.iter().map(|c| c.channel_id).collect();
    assert_eq!(
        ids,
        [ChannelId::Transparency, ChannelId::Color0, ChannelId::Color1, ChannelId::Color2]
    );
    assert_eq!(coded.channels[1].compression, Compression::RleCompressed);
    assert_eq!(coded.channels[1].buffer, Some(vec![0, 2, 254, 1]));
    assert_eq!(coded.channels[1].length, 6);
}
