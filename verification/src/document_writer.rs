//! Writing a whole document.

use vstd::prelude::*;

use crate::bytes;
use crate::channels;
use crate::header;
use crate::header::Header;
use crate::info;
use crate::layer_tree;
use crate::layer_writer;
use crate::lazy;
use crate::mask;
use crate::matte;
use crate::palette;
use crate::pixels;
use crate::psd;
use crate::psd::{
    ColorMode, CompositeRawData, CompositeRawView, Layer, LayerView, PixelData, PixelDataView,
    Psd, PsdView, ResourceBlock, ResourceBlockView, WriteOptions,
};
use crate::recode;
use crate::resources;
use crate::rle;
use crate::writer;
use crate::writer::PsdWriter;

verus! {

broadcast use crate::bytes::group_bytes;

/// The composite image that a document has: its image data, or else its canvas.
pub open spec fn own_image(psd: PsdView) -> Option<PixelDataView> {
    if psd.image_data is Some {
        psd.image_data
    } else {
        psd.canvas
    }
}

/// The large document format is asked for.
pub open spec fn wants_psb(options: WriteOptions) -> bool {
    options.psb == Some(true)
}

/// The stored composite image that a document is written from: the one it was read
/// with, where it has no other and the head of the document can say what it holds.
pub open spec fn kept_composite(psd: PsdView, options: WriteOptions) -> Option<CompositeRawView> {
    match psd.raw_composite_data {
        Some(raw) => if own_image(psd) is None && psd.color_mode == Some(ColorMode::Rgb)
            && psd.channels is Some && psd.channels->Some_0 <= 16 && raw.large == wants_psb(
            options,
        ) {
            Some(raw)
        } else {
            None
        },
        None => None,
    }
}

/// The composite image that is coded: the one a document has, or else the one it was
/// read with, decoded, where that is not written as it was stored.
pub open spec fn document_image(psd: PsdView, options: WriteOptions) -> Option<PixelDataView> {
    if own_image(psd) is Some || kept_composite(psd, options) is Some {
        own_image(psd)
    } else {
        match lazy::stored_composite_image(psd) {
            Ok(image) => image,
            Err(_) => None,
        }
    }
}

/// The composite image has a transparency channel.
pub open spec fn document_alpha(psd: PsdView, options: WriteOptions) -> bool {
    match kept_composite(psd, options) {
        Some(raw) => raw.global_alpha,
        None => document_image(psd, options) matches Some(p) && pixels::has_transparency(p),
    }
}

/// The records of a document: those of all layers and groups, and one of an empty
/// layer where the list of layers is empty.
pub open spec fn record_list(psd: PsdView) -> Seq<LayerView> {
    match psd.children {
        None => Seq::empty(),
        Some(children) => if children.len() == 0 {
            seq![psd::empty_layer()]
        } else {
            layer_tree::flattened(children)
        },
    }
}

/// The records that are written. A layer whose stored channels cannot be written as
/// they are is decoded.
pub open spec fn written_layers(psd: PsdView, options: WriteOptions) -> Seq<LayerView> {
    recode::recoded_all(record_list(psd), wants_psb(options))
}

/// The document can be written: it has an area that the format has room for,
/// samples of eight bits, a composite image of its own size, and layers that can
/// be written.
pub open spec fn writable(psd: PsdView, options: WriteOptions) -> bool {
    &&& psd.width > 0
    &&& psd.height > 0
    &&& wants_psb(options) || (psd.width <= 30000 && psd.height <= 30000)
    &&& psd.bits_per_channel is None || psd.bits_per_channel == Some(8u16)
    &&& own_image(psd) matches Some(p) ==> p.width == psd.width && p.height == psd.height
        && p.wf()
    &&& psd.width * psd.height * 4 <= usize::MAX
    &&& psd.children matches Some(children) ==> layer_tree::groups_have_no_pixels(children)
    &&& layer_writer::layers_fit(record_list(psd))
    &&& info::divider_wf(psd.additional_info)
}

/// The head of a document as it is written: 8-bit RGB, with three or four channels
/// unless its composite image is written as it was stored.
pub open spec fn written_header(psd: PsdView, options: WriteOptions) -> Header {
    Header {
        large: wants_psb(options),
        channels: if kept_composite(psd, options) is Some {
            psd.channels->Some_0
        } else if document_alpha(psd, options) {
            4
        } else {
            3
        },
        height: psd.height,
        width: psd.width,
        bits_per_channel: 8,
        color_mode: ColorMode::Rgb,
    }
}

/// The image resources of a document.
pub open spec fn written_resources(psd: PsdView) -> Seq<ResourceBlockView> {
    match psd.image_resources {
        Some(list) => list,
        None => Seq::empty(),
    }
}

/// The composite image as it is written: with white behind it where it is
/// transparent, and all zeros where there is none.
pub open spec fn written_image(psd: PsdView, options: WriteOptions) -> PixelDataView {
    PixelDataView {
        width: psd.width,
        height: psd.height,
        data: match document_image(psd, options) {
            None => bytes::zeros(psd.width * psd.height * 4),
            Some(p) => if document_alpha(psd, options) {
                matte::matted(p.data.take(p.size()), p.size())
            } else {
                p.data.take(p.size())
            },
        },
    }
}

/// The channels of the composite image that are written.
pub open spec fn image_channels(global_alpha: bool) -> Seq<usize> {
    if global_alpha {
        seq![0usize, 1usize, 2usize, 3usize]
    } else {
        seq![0usize, 1usize, 2usize]
    }
}

/// The composite image: as it was stored, or run-length coded.
pub open spec fn image_bytes(psd: PsdView, options: WriteOptions) -> Seq<u8> {
    match kept_composite(psd, options) {
        Some(raw) => raw.data,
        None => coded_image(psd, options),
    }
}

/// The composite image run-length coded.
pub open spec fn coded_image(psd: PsdView, options: WriteOptions) -> Seq<u8> {
    bytes::u16_bytes(1) + rle::rle_bytes(
        written_image(psd, options),
        image_channels(document_alpha(psd, options)),
        wants_psb(options),
    )
}

/// The section about layers and masks, where `layers` is the part about layers.
pub open spec fn layer_section_body(psd: PsdView, layers: Seq<u8>, psb: bool) -> Seq<u8> {
    layers + (writer::section_bytes(
        mask::global_mask_body(psd.global_layer_mask_info),
        1,
        false,
        false,
    ) + info::info_bytes(psd.additional_info, psb))
}

/// A document, where `layers` is the part about layers.
pub open spec fn document_bytes(psd: PsdView, options: WriteOptions, layers: Seq<u8>) -> Seq<u8> {
    let psb = wants_psb(options);
    header::header_bytes(written_header(psd, options)) + (palette::palette_bytes(psd.palette) + (
    resources::resources_bytes(written_resources(psd)) + (writer::section_bytes(
        layer_section_body(psd, layers, psb),
        2,
        false,
        psb,
    ) + image_bytes(psd, options))))
}

/// `data` is the file of a document.
pub open spec fn is_document(data: Seq<u8>, psd: PsdView, options: WriteOptions) -> bool {
    exists|layers: Seq<u8>| #[trigger]
        layer_writer::is_layer_info(
            layers,
            written_layers(psd, options),
            document_alpha(psd, options),
            options,
            wants_psb(options),
        ) && data == document_bytes(psd, options, layers)
}

/// How much room it takes to code any channel of a document.
pub open spec fn document_scratch(psd: PsdView, options: WriteOptions) -> int {
    let psb = wants_psb(options);
    layer_writer::larger(
        layer_writer::largest_scratch(written_layers(psd, options), psb),
        bytes::clamp_offset(rle::scratch_size(psd.width as int, psd.height as int, 4, psb)),
    )
}

/// What is decoded to be coded anew can be written.
pub proof fn lemma_written(psd: PsdView, options: WriteOptions)
    requires
        writable(psd, options),
    ensures
        layer_writer::layers_fit(written_layers(psd, options)),
        document_image(psd, options) matches Some(p) ==> p.width == psd.width && p.height
            == psd.height && p.wf(),
{
    let list = record_list(psd);
    let psb = wants_psb(options);
    assert forall|i: int| 0 <= i < list.len() implies channels::layer_fits(
        #[trigger] written_layers(psd, options)[i],
    ) && info::divider_wf(written_layers(psd, options)[i].additional_info) by {
        assert(channels::layer_fits(list[i]));
        recode::lemma_recoded(list[i], psb);
        recode::lemma_recoded_kept(list[i], psb);
    }
    match psd.raw_composite_data {
        None => {},
        Some(raw) => match lazy::head_of(psd, raw.large) {
            None => {},
            Some(h) => {
                recode::lemma_composite_size(lazy::composite_reader(raw), h, psd.palette);
            },
        },
    }
}

fn records_of(psd: &Psd, psb: bool) -> (layers: Vec<Layer>)
    requires
        psd.deep_view().children matches Some(children) ==> layer_tree::groups_have_no_pixels(
            children,
        ),
    ensures
        layers.deep_view() == recode::recoded_all(record_list(psd.deep_view()), psb),
{
    let mut layers: Vec<Layer> = Vec::new();
    assert(layers.deep_view() =~= Seq::<LayerView>::empty());
    match &psd.children {
        None => {},
        Some(children) => {
            layer_tree::add_children(&mut layers, children);
            assert(Seq::<LayerView>::empty() + layer_tree::flattened(children.deep_view())
                =~= layer_tree::flattened(children.deep_view()));
            if children.len() == 0 {
                let empty: Layer = Layer::default();
                layers.push(empty);
                assert(layers.deep_view() =~= seq![psd::empty_layer()]);
            }
        },
    }
    proof {
        match psd.deep_view().children {
            None => {},
            Some(children) => {
                layer_tree::lemma_flat_records(children);
            },
        }
    }
    recode::recode_layers(layers, psb)
}

fn write_image(
    writer: &mut PsdWriter,
    psd: &Psd,
    image: Option<&PixelData>,
    global_alpha: bool,
    options: &WriteOptions,
)
    requires
        old(writer).wf(),
        kept_composite(psd.deep_view(), *options) is None,
        psd.width * psd.height * 4 <= usize::MAX,
        match image {
            Some(p) => document_image(psd.deep_view(), *options) == Some(p.deep_view()) && p.width
                == psd.width && p.height == psd.height && p.data@.len() >= psd.width * psd.height
                * 4,
            None => document_image(psd.deep_view(), *options) is None,
        },
        psd.width > 0,
        psd.height > 0,
        global_alpha == document_alpha(psd.deep_view(), *options),
        layer_writer::scratch_len(*old(writer)) >= bytes::clamp_offset(
            rle::scratch_size(psd.width as int, psd.height as int, 4, wants_psb(*options)),
        ),
    ensures
        layer_writer::wrote_with_scratch(
            *old(writer),
            *final(writer),
            coded_image(psd.deep_view(), *options),
        ),
        final(writer).temp_buffer is Some,
{
    let ghost view = psd.deep_view();
    let psb: bool = matches!(options.psb, Some(true));
    let size: usize = pixels::bitmap_bytes(psd.width as usize, psd.height as usize, 4);
    let data: Vec<u8> = match image {
        None => {
            let zeros: Vec<u8> = vec![0u8; size];
            assert(zeros@ =~= bytes::zeros(size as int));
            zeros
        },
        Some(p) => {
            let own: &[u8] = vstd::slice::slice_subrange(p.data.as_slice(), 0, size);
            let mut copy: Vec<u8> = psd::copy_bytes(own);
            assert(copy@ =~= p.data@.take(size as int));
            if global_alpha {
                assert(size % 4 == 0) by (nonlinear_arith)
                    requires
                        size == psd.width * psd.height * 4,
                ;
                matte::add_matte(&mut copy, size);
            }
            copy
        },
    };
    let pixels: PixelData = PixelData { width: psd.width, height: psd.height, data };
    assert(pixels.deep_view() == written_image(view, *options));
    let mut offsets: Vec<usize> = Vec::new();
    offsets.push(0);
    offsets.push(1);
    offsets.push(2);
    if global_alpha {
        offsets.push(3);
    }
    assert(offsets@ =~= image_channels(global_alpha));
    writer::write_uint16(writer, 1);
    let mut temp_buffer: Vec<u8> = match writer.temp_buffer.take() {
        Some(temp) => temp,
        None => Vec::new(),
    };
    proof {
        rle::lemma_rle_fits(pixels.deep_view(), offsets@, psb);
        lemma_fewer_channels(
            psd.width as int,
            psd.height as int,
            offsets@.len() as int,
            psb,
        );
    }
    let packed: Option<Vec<u8>> = rle::write_data_rle(
        &mut temp_buffer,
        &pixels,
        offsets.as_slice(),
        psb,
    );
    writer.temp_buffer = Some(temp_buffer);
    match packed {
        Some(code) => {
            writer::write_bytes(writer, Some(code.as_slice()));
        },
        None => {},
    }
    assert(writer.data() =~= old(writer).data() + coded_image(view, *options));
}

/// The stored composite image that a document is written from.
fn kept_image<'a>(psd: &'a Psd, options: &WriteOptions) -> (raw: Option<&'a CompositeRawData>)
    ensures
        raw.deep_view() == kept_composite(psd.deep_view(), *options),
{
    let psb: bool = matches!(options.psb, Some(true));
    let few: bool = match psd.channels {
        Some(channels) => channels <= 16,
        None => false,
    };
    match &psd.raw_composite_data {
        Some(raw) => if psd.image_data.is_none() && psd.canvas.is_none() && matches!(
            psd.color_mode,
            Some(ColorMode::Rgb)
        ) && few && raw.large == psb {
            Some(raw)
        } else {
            None
        },
        None => None,
    }
}

proof fn lemma_fewer_channels(width: int, height: int, n: int, psb: bool)
    requires
        0 <= n <= 4,
        0 <= width,
        0 <= height,
    ensures
        rle::scratch_size(width, height, n, psb) <= rle::scratch_size(width, height, 4, psb),
{
    let e: int = if psb {
        4
    } else {
        2
    };
    assert(n * (height * (e + 2 * width)) <= 4 * (height * (e + 2 * width))) by (nonlinear_arith)
        requires
            0 <= n <= 4,
            0 <= width,
            0 <= height,
            e > 0,
    ;
}

fn write_layer_section(
    writer: &mut PsdWriter,
    psd: &Psd,
    layers: &Vec<Layer>,
    global_alpha: bool,
    options: &WriteOptions,
    psb: bool,
)
    requires
        old(writer).wf(),
        layer_writer::layers_fit(layers.deep_view()),
        info::divider_wf(psd.deep_view().additional_info),
        layer_writer::scratch_len(*old(writer)) >= layer_writer::largest_scratch(
            layers.deep_view(),
            psb,
        ),
    ensures
        exists|piece: Seq<u8>| #[trigger]
            layer_writer::is_layer_info(
                piece,
                layers.deep_view(),
                global_alpha,
                *options,
                psb,
            ) && layer_writer::wrote_with_scratch(
                *old(writer),
                *final(writer),
                writer::section_bytes(
                    layer_section_body(psd.deep_view(), piece, psb),
                    2,
                    false,
                    psb,
                ),
            ),
{
    let ghost base = writer.data();
    assert(base.len() == writer.offset);
    let start: usize = writer::begin_section(writer, psb);
    let ghost open = *writer;
    assert(open.data().len() == writer.offset);
    layer_writer::write_layer_info(writer, layers, global_alpha, options, psb);
    let ghost piece = choose|piece: Seq<u8>| #[trigger]
        layer_writer::is_layer_info(piece, layers.deep_view(), global_alpha, *options, psb)
            && layer_writer::wrote_with_scratch(open, *writer, piece);
    mask::write_global_layer_mask_info(writer, psd.global_layer_mask_info);
    info::write_additional_info(writer, &psd.additional_info, psb);
    let ghost body = layer_section_body(psd.deep_view(), piece, psb);
    assert(writer.data() =~= open.data() + body);
    assert(writer.data().len() == writer.offset);
    writer::end_section(writer, start, 2, false);
    proof {
        writer::lemma_section_written(base, body, 2, false, psb);
        assert(writer.data().len() == writer.offset);
    }
}

/// The head, the palette and the image resources of a document.
spec fn front_bytes(psd: PsdView, options: WriteOptions) -> Seq<u8> {
    header::header_bytes(written_header(psd, options)) + (palette::palette_bytes(psd.palette)
        + resources::resources_bytes(written_resources(psd)))
}

fn write_front(writer: &mut PsdWriter, psd: &Psd, options: &WriteOptions, global_alpha: bool)
    requires
        old(writer).wf(),
        global_alpha == document_alpha(psd.deep_view(), *options),
    ensures
        writer::wrote(*old(writer), *final(writer), front_bytes(psd.deep_view(), *options)),
{
    let ghost view = psd.deep_view();
    let channels: u16 = match (kept_image(psd, options), psd.channels) {
        (Some(_), Some(channels)) => channels,
        _ => if global_alpha {
            4
        } else {
            3
        },
    };
    let h: Header = Header {
        large: matches!(options.psb, Some(true)),
        channels,
        height: psd.height,
        width: psd.width,
        bits_per_channel: 8,
        color_mode: ColorMode::Rgb,
    };
    assert(h == written_header(view, *options));
    header::write_header(writer, h);
    palette::write_palette(writer, &psd.palette);
    let none: Vec<ResourceBlock> = Vec::new();
    let list: &Vec<ResourceBlock> = match &psd.image_resources {
        Some(list) => list,
        None => &none,
    };
    assert(list.deep_view() =~= written_resources(view));
    resources::write_resources(writer, list);
    assert(writer.data() =~= old(writer).data() + front_bytes(view, *options));
}

proof fn lemma_parts(
    base: Seq<u8>,
    head: Seq<u8>,
    palette: Seq<u8>,
    resources: Seq<u8>,
    layers: Seq<u8>,
    image: Seq<u8>,
)
    ensures
        base + (head + (palette + resources)) + layers + image == base + (head + (palette + (
        resources + (layers + image)))),
{
    assert(base + (head + (palette + resources)) + layers + image =~= base + (head + (palette + (
    resources + (layers + image)))));
}

/// A document has one file: however it is written, to a fresh writer or behind what
/// a writer holds already, and whatever room the writer has, the bytes are the same.
pub proof fn law_one_output(a: Seq<u8>, b: Seq<u8>, psd: PsdView, options: WriteOptions)
    requires
        is_document(a, psd, options),
        is_document(b, psd, options),
    ensures
        a == b,
{
    let psb = wants_psb(options);
    let layers = written_layers(psd, options);
    let alpha = document_alpha(psd, options);
    let first = choose|piece: Seq<u8>| #[trigger]
        layer_writer::is_layer_info(piece, layers, alpha, options, psb) && a == document_bytes(
            psd,
            options,
            piece,
        );
    let second = choose|piece: Seq<u8>| #[trigger]
        layer_writer::is_layer_info(piece, layers, alpha, options, psb) && b == document_bytes(
            psd,
            options,
            piece,
        );
    layer_writer::law_one_layer_info(first, second, layers, alpha, options, psb);
}

/// Writes a document.
pub fn write_psd_to_writer(writer: &mut PsdWriter, psd: &Psd, options: &WriteOptions)
    requires
        old(writer).wf(),
        writable(psd.deep_view(), *options),
    ensures
        final(writer).wf(),
        writer::grew(*old(writer), *final(writer)),
        exists|piece: Seq<u8>| #[trigger]
            is_document(piece, psd.deep_view(), *options) && final(writer).data() == old(
                writer,
            ).data() + piece,
        layer_writer::scratch_len(*final(writer)) == document_scratch(
            psd.deep_view(),
            *options,
        ),
{
    let ghost view = psd.deep_view();
    let psb: bool = matches!(options.psb, Some(true));
    proof {
        lemma_written(view, *options);
    }
    let own: Option<&PixelData> = channels::chosen_image(&psd.canvas, &psd.image_data);
    let kept: Option<&CompositeRawData> = kept_image(psd, options);
    let decoded: Option<PixelData> = if own.is_none() && kept.is_none() {
        match lazy::get_composite_image_data(psd) {
            Ok(found) => found,
            Err(_) => None,
        }
    } else {
        None
    };
    let image: Option<&PixelData> = match own {
        Some(p) => Some(p),
        None => decoded.as_ref(),
    };
    let global_alpha: bool = match kept {
        Some(raw) => raw.global_alpha,
        None => match image {
            Some(p) => pixels::has_alpha(p),
            None => false,
        },
    };
    let layers: Vec<Layer> = records_of(psd, psb);
    let for_layers: usize = layer_writer::get_largest_layer_size(&layers, psb);
    let for_image: usize = rle::rle_scratch_size(psd.width, psd.height, 4, psb);
    let room: usize = if for_layers < for_image {
        for_image
    } else {
        for_layers
    };
    writer.temp_buffer = Some(vec![0u8; room]);
    write_front(writer, psd, options, global_alpha);
    let ghost w1 = *writer;
    write_layer_section(writer, psd, &layers, global_alpha, options, psb);
    let ghost piece = choose|piece: Seq<u8>| #[trigger]
        layer_writer::is_layer_info(piece, layers.deep_view(), global_alpha, *options, psb)
            && layer_writer::wrote_with_scratch(
            w1,
            *writer,
            writer::section_bytes(layer_section_body(view, piece, psb), 2, false, psb),
        );
    match kept {
        Some(raw) => {
            writer::write_bytes(writer, Some(raw.data.as_slice()));
        },
        None => {
            write_image(writer, psd, image, global_alpha, options);
        },
    }
    proof {
        lemma_parts(
            old(writer).data(),
            header::header_bytes(written_header(view, *options)),
            palette::palette_bytes(view.palette),
            resources::resources_bytes(written_resources(view)),
            writer::section_bytes(layer_section_body(view, piece, psb), 2, false, psb),
            image_bytes(view, *options),
        );
        assert(layer_writer::is_layer_info(
            piece,
            written_layers(view, *options),
            document_alpha(view, *options),
            *options,
            wants_psb(*options),
        ));
        assert(is_document(document_bytes(view, *options, piece), view, *options));
    }
}

/// The file of a document.
pub fn write_psd(psd: &Psd, options: &WriteOptions) -> (data: Vec<u8>)
    requires
        writable(psd.deep_view(), *options),
    ensures
        is_document(data@, psd.deep_view(), *options),
{
    let mut writer: PsdWriter = writer::create_writer_default();
    let ghost start = writer.data();
    write_psd_to_writer(&mut writer, psd, options);
    let ghost piece = choose|piece: Seq<u8>| #[trigger]
        is_document(piece, psd.deep_view(), *options) && writer.data() == start + piece;
    assert(start + piece =~= piece);
    writer::get_writer_buffer(&writer)
}

} // verus!
