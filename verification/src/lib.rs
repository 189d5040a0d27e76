//! Reading and writing of Photoshop documents (PSD and PSB).

pub mod budget;
pub mod bytes;
pub mod channel_laws;
pub mod channels;
pub mod codec;
pub mod color;
pub mod color_laws;
pub mod composite;
pub mod decode;
pub mod decode_laws;
pub mod dict;
pub mod document;
pub mod document_laws;
pub mod document_read_laws;
pub mod document_writer;
pub mod error;
pub mod format_laws;
pub mod header;
pub mod helpers;
pub mod image_laws;
pub mod info;
pub mod layer_laws;
pub mod layer_tree;
pub mod layer_writer;
pub mod layout_laws;
pub mod lazy;
pub mod limit_laws;
pub mod mask;
pub mod matte;
pub mod number_laws;
pub mod packbits;
pub mod palette;
pub mod part_laws;
pub mod pattern;
pub mod pattern_laws;
pub mod pattern_writer;
pub mod pixel_laws;
pub mod pixels;
pub mod psd;
pub mod raster_laws;
pub mod raw_laws;
pub mod reader;
pub mod recode;
pub mod record_laws;
pub mod record_writer;
pub mod records;
pub mod resources;
pub mod rle;
pub mod roundtrip;
pub mod sample_laws;
pub mod samples;
pub mod scan_laws;
pub mod settings_laws;
pub mod slot_laws;
pub mod text;
pub mod tree_laws;
pub mod trim;
pub mod utf8;
pub mod value_laws;
pub mod writer;
pub mod written_laws;
pub mod zlib;

pub use crate::document::read_psd;
pub use crate::document_writer::{write_psd, write_psd_to_writer};
pub use crate::error::{ReadError, ReadResult};
pub use crate::lazy::{
    decode_layer_pixels, get_composite_image_data, get_layer_image_data, get_layer_mask_image_data,
    get_layer_real_mask_image_data,
};
pub use crate::psd::{PixelData, DEFAULT_TOTAL_MEMORY_LIMIT};
