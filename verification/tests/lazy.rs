//! Bitmaps decoded one at a time.

use ag_psd::error::ReadError;
use ag_psd::lazy::{
    decode_layer_pixels, get_composite_image_data, get_layer_image_data, get_layer_mask_image_data,
    get_layer_real_mask_image_data,
};
use ag_psd::psd::{Layer, LayerMaskData, PixelData, Psd, ReadOptions, WriteOptions};
use ag_psd::{read_psd, write_psd};

fn noise(w: u32, h: u32, seed: u32) -> PixelData {
    let data: Vec<u8> = (0..w * h * 4).map(|i| (i * 31 + seed + i / 5) as u8).collect();
    PixelData { width: w, height: h, data }
}

fn gray(w: u32, h: u32, seed: u8) -> PixelData {
    let data: Vec<u8> = (0..w * h)
        .flat_map(|i| {
            let v = seed.wrapping_add((i * 11) as u8);
            [v, v, v, 255]
        })
        .collect();
    PixelData { width: w, height: h, data }
}

fn mask_of(image: PixelData) -> LayerMaskData {
    LayerMaskData {
        top: Some(0),
        left: Some(0),
        bottom: Some(image.height as i32),
        right: Some(image.width as i32),
        default_color: Some(0),
        image_data: Some(image),
        ..Default::default()
    }
}

fn document() -> Psd {
    let mut layer = Layer::default();
    layer.image_data = Some(noise(3, 4, 7));
    layer.additional_info.mask = Some(mask_of(gray(2, 3, 50)));
    layer.additional_info.real_mask = Some(mask_of(gray(1, 2, 90)));
    let mut image = noise(5, 4, 100);
    image.data.chunks_mut(4).for_each(|p| p[3] = 255);
    Psd {
        width: 5,
        height: 4,
        children: Some(vec![layer]),
        image_data: Some(image),
        ..Default::default()
    }
}

fn kept(psd: &Psd, options: WriteOptions) -> Psd {
    let settings = ReadOptions {
        use_raw_data: Some(true),
        total_memory_limit: Some(0),
        ..ReadOptions::default()
    };
    read_psd(&write_psd(psd, &options), &settings).expect("nothing is decoded")
}

#[test]
fn a_document_is_kept_as_it_is_stored() {
    let psd = document();
    for psb in [None, Some(true)] {
        for compress in [None, Some(true)] {
            let options = WriteOptions { psb, compress, ..WriteOptions::default() };
            let bytes = write_psd(&psd, &options);
            let read = kept(&psd, options);
            assert_eq!((&read.image_data, &read.canvas), (&None, &None));
            let raw = read.raw_composite_data.as_ref().expect("a stored image");
            assert!(bytes.ends_with(&raw.data));
            assert_eq!(&raw.data[..2], &[0, 1]);
            assert_eq!(raw.large, psb == Some(true));
            assert!(!raw.global_alpha);
            assert_eq!(get_composite_image_data(&read).unwrap(), psd.image_data);
        }
    }
}

#[test]
fn each_bitmap_of_a_layer_is_decoded_alone() {
    for compress in [None, Some(true)] {
        let read = kept(&document(), WriteOptions { compress, ..WriteOptions::default() });
        let mut layer = read.children.unwrap().remove(0);
        assert!(layer.raw_data.is_some());
        assert_eq!(get_layer_image_data(&layer).unwrap(), Some(noise(3, 4, 7)));
        assert_eq!(get_layer_mask_image_data(&layer).unwrap(), Some(gray(2, 3, 50)));
        assert_eq!(get_layer_real_mask_image_data(&layer).unwrap(), Some(gray(1, 2, 90)));
        assert!(layer.raw_data.is_some());

        decode_layer_pixels(&mut layer, true).unwrap();
        assert_eq!(layer.raw_data, None);
        assert_eq!(layer.image_data, Some(noise(3, 4, 7)));
        let info = &layer.additional_info;
        assert_eq!(info.mask.as_ref().unwrap().image_data, Some(gray(2, 3, 50)));
        assert_eq!(info.real_mask.as_ref().unwrap().image_data, Some(gray(1, 2, 90)));
    }
}

#[test]
fn all_bitmaps_of_a_layer_are_decoded_into_canvases() {
    let read = kept(&document(), WriteOptions::default());
    let mut layer = read.children.unwrap().remove(0);
    decode_layer_pixels(&mut layer, false).unwrap();
    assert_eq!(layer.canvas, Some(noise(3, 4, 7)));
    assert_eq!(layer.image_data, None);
}

#[test]
fn without_stored_bitmaps_there_is_nothing_to_decode() {
    let layer = Layer::default();
    assert_eq!(get_layer_image_data(&layer), Ok(None));
    assert_eq!(get_layer_mask_image_data(&layer), Ok(None));
    assert_eq!(get_layer_real_mask_image_data(&layer), Ok(None));
    assert_eq!(get_composite_image_data(&Psd::default()), Ok(None));
}

#[test]
fn a_stored_mask_needs_its_rectangle() {
    let read = kept(&document(), WriteOptions::default());
    let mut layer = read.children.unwrap().remove(0);
    layer.additional_info.mask = None;
    assert_eq!(
        get_layer_mask_image_data(&layer),
        Err(ReadError::StrictViolation("Missing layer mask data".to_string()))
    );
    assert_eq!(get_layer_image_data(&layer).unwrap(), Some(noise(3, 4, 7)));
    layer.bottom = Some(-1);
    assert_eq!(
        get_layer_image_data(&layer),
        Err(ReadError::InvalidBoxSize { kind: "layer".to_string(), width: 3, height: -1 })
    );
}

#[test]
fn a_transparent_composite_is_decoded_without_its_matte() {
    let mut psd = document();
    psd.image_data.as_mut().unwrap().data[3] = 0;
    let settings = ReadOptions { use_image_data: Some(true), ..ReadOptions::default() };
    let bytes = write_psd(&psd, &WriteOptions::default());
    let eager = read_psd(&bytes, &settings).unwrap();
    let read = kept(&psd, WriteOptions::default());
    assert!(read.raw_composite_data.as_ref().unwrap().global_alpha);
    assert_eq!(get_composite_image_data(&read).unwrap(), eager.image_data);
}
