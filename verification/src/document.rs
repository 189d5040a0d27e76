//! Reading a whole document.

use vstd::prelude::*;

use crate::composite;
use crate::error::{ErrorView, ReadResult};
use crate::header;
use crate::header::Header;
use crate::info;
use crate::mask;
use crate::palette;
use crate::psd::{
    AdditionalInfoView, CompositeRawData, CompositeRawView, GlobalLayerMaskInfo, Layer,
    LayerAdditionalInfo, LayerView, PaletteColor, PixelData, PixelDataView, Psd, PsdView,
    ReadOptions, ResourceBlock, ResourceBlockView,
};
use crate::reader;
use crate::reader::{Parsed, PsdReader, ReaderState, Section};
use crate::records;
use crate::resources;

verus! {

broadcast use crate::bytes::group_bytes;

/// The cursor behind the zero bytes that lie between blocks.
pub open spec fn past_zeros(r: ReaderState, end: int) -> Parsed<()>
    decreases end - r.offset,
{
    if end <= r.offset {
        Ok(((), r))
    } else {
        match reader::get_u8(r) {
            Err(e) => Err(e),
            Ok((b, _)) => if b == 0 {
                past_zeros(r.at(r.offset + 1), end)
            } else {
                Ok(((), r))
            },
        }
    }
}

/// Zero bytes are passed over one by one.
pub proof fn lemma_past_zeros(r: ReaderState, end: int)
    requires
        r.buffer.len() <= usize::MAX,
    ensures
        past_zeros(r, end) matches Ok((_, after)) ==> r.offset <= after.offset && after == r.at(
            after.offset,
        ),
    decreases end - r.offset,
{
    if r.offset < end && reader::get_u8(r) is Ok {
        lemma_past_zeros(r.at(r.offset + 1), end);
    }
}

/// What the blocks of a document say: its layers, where they are in a block, and
/// the rest.
#[verifier::ext_equal]
pub struct BlockPart {
    pub children: Option<Seq<LayerView>>,
    pub additional_info: AdditionalInfoView,
}

/// Layers from a block, before those that are there already.
pub open spec fn merged(layers: Seq<LayerView>, children: Option<Seq<LayerView>>) -> Option<
    Seq<LayerView>,
> {
    Some(
        layers + match children {
            Some(children) => children,
            None => Seq::empty(),
        },
    )
}

/// The layers in a block, from its length on. Behind them the reader is at the
/// end of the block.
pub open spec fn get_nested_layers(r: ReaderState, h: Header, eight_bytes: bool) -> Parsed<
    Seq<LayerView>,
> {
    match reader::open_section(r, false, eight_bytes) {
        Err(e) => Err(e),
        Ok((None, r1)) => Ok((Seq::empty(), r1)),
        Ok((Some(section), r1)) => match records::get_layers(
            r1,
            h.color_mode,
            h.bits_per_channel,
        ) {
            Err(e) => Err(e),
            Ok((layers, r2)) => match reader::close_section(
                ReaderState {
                    large: r2.large,
                    global_alpha: r2.global_alpha,
                    budget: r2.budget,
                    ..r1.at(r2.skipped(section.rest(r2)).offset)
                },
                section,
                2,
            ) {
                Err(e) => Err(e),
                Ok((_, r3)) => Ok((layers, r3)),
            },
        },
    }
}

/// `part` with the block at the cursor.
#[verifier::opaque]
pub open spec fn get_document_block(r: ReaderState, h: Header, part: BlockPart) -> Parsed<BlockPart> {
    match info::get_block_signature(r, false) {
        Err(e) => Err(e),
        Ok((signature, r1)) => match info::get_key(r1) {
            Err(e) => Err(e),
            Ok((key, r2)) => {
                let eight_bytes = signature == info::SIGNATURE_8B64 || (r2.large
                    && info::large_key(key));
                if info::holds_layers(key) {
                    match get_nested_layers(r2, h, eight_bytes) {
                        Err(e) => Err(e),
                        Ok((layers, r3)) => Ok(
                            (BlockPart { children: merged(layers, part.children), ..part }, r3),
                        ),
                    }
                } else {
                    match info::get_payload(r2, eight_bytes) {
                        Err(e) => Err(e),
                        Ok((data, r3)) => Ok(
                            (
                                BlockPart {
                                    additional_info: info::with_block(
                                        part.additional_info,
                                        key,
                                        data,
                                    ),
                                    ..part
                                },
                                r3,
                            ),
                        ),
                    }
                }
            },
        },
    }
}

/// A block takes at least eight bytes.
pub proof fn lemma_document_block_progress(r: ReaderState, h: Header, part: BlockPart)
    requires
        r.buffer.len() <= usize::MAX,
    ensures
        get_document_block(r, h, part) matches Ok((_, after)) ==> r.offset + 8 <= after.offset
            && after.same_source(r),
{
    reveal(get_document_block);
    info::lemma_signature_progress(r, false, 0, Seq::empty());
}

/// `part` with the blocks up to `end`, with zero bytes between them, as long as a
/// block may still fit.
pub open spec fn get_document_blocks(r: ReaderState, h: Header, end: int, part: BlockPart) -> Parsed<
    BlockPart,
>
    decreases
            (if end < r.offset {
                0
            } else {
                end - r.offset
            }),
    when r.buffer.len() <= usize::MAX
    via get_document_blocks_decreases
{
    if end <= r.offset {
        Ok((part, r))
    } else {
        match past_zeros(r, end) {
            Err(e) => Err(e),
            Ok((_, r1)) => if end - r1.offset < 12 {
                Ok(
                    (
                        part,
                        if r1.offset < end {
                            r1.at(end)
                        } else {
                            r1
                        },
                    ),
                )
            } else {
                match get_document_block(r1, h, part) {
                    Err(e) => Err(e),
                    Ok((more, r2)) => get_document_blocks(r2, h, end, more),
                }
            },
        }
    }
}

#[via_fn]
proof fn get_document_blocks_decreases(r: ReaderState, h: Header, end: int, part: BlockPart) {
    lemma_past_zeros(r, end);
    match past_zeros(r, end) {
        Err(_) => {},
        Ok((_, r1)) => {
            lemma_document_block_progress(r1, h, part);
        },
    }
}

/// What the section about layers and masks holds.
#[verifier::ext_equal]
pub struct LayerSection {
    pub children: Option<Seq<LayerView>>,
    pub global_layer_mask_info: Option<GlobalLayerMaskInfo>,
    pub additional_info: AdditionalInfoView,
}

/// The layers of a document, where it says anything about layers.
#[verifier::opaque]
pub open spec fn get_layer_part(r: ReaderState, h: Header) -> Parsed<Option<Seq<LayerView>>> {
    match reader::open_section(r, true, r.large) {
        Err(e) => Err(e),
        Ok((None, r1)) => Ok((None, r1)),
        Ok((Some(section), r1)) => match records::get_layers(
            r1,
            h.color_mode,
            h.bits_per_channel,
        ) {
            Err(e) => Err(e),
            Ok((layers, r2)) => match reader::close_section(
                r2.skipped(section.rest(r2)),
                section,
                2,
            ) {
                Err(e) => Err(e),
                Ok((_, r3)) => Ok((Some(layers), r3)),
            },
        },
    }
}

/// The inside of the section about layers and masks.
#[verifier::opaque]
pub open spec fn get_layer_section_body(r: ReaderState, h: Header, end: int) -> Parsed<
    LayerSection,
> {
    match get_layer_part(r, h) {
        Err(e) => Err(e),
        Ok((children, r1)) => {
            let masked = if r1.offset < end {
                mask::get_global_mask(r1)
            } else {
                Ok((None, r1))
            };
            match masked {
                Err(e) => Err(e),
                Ok((global_layer_mask_info, r2)) => match get_document_blocks(
                    r2,
                    h,
                    end,
                    BlockPart { children, additional_info: crate::psd::empty_info() },
                ) {
                    Err(e) => Err(e),
                    Ok((part, r3)) => Ok(
                        (
                            LayerSection {
                                children: part.children,
                                global_layer_mask_info,
                                additional_info: part.additional_info,
                            },
                            r3,
                        ),
                    ),
                },
            }
        },
    }
}

/// The section about layers and masks.
#[verifier::opaque]
pub open spec fn get_layer_section(r: ReaderState, h: Header) -> Parsed<LayerSection> {
    match reader::open_section(r, true, r.large) {
        Err(e) => Err(e),
        Ok((None, r1)) => Ok(
            (
                LayerSection {
                    children: None,
                    global_layer_mask_info: None,
                    additional_info: crate::psd::empty_info(),
                },
                r1,
            ),
        ),
        Ok((Some(section), r1)) => match get_layer_section_body(r1, h, section.end as int) {
            Err(e) => Err(e),
            Ok((layers, r2)) => match reader::close_section(r2, section, 1) {
                Err(e) => Err(e),
                Ok((_, r3)) => Ok((layers, r3)),
            },
        },
    }
}

/// The composite image is not asked for.
pub open spec fn composite_skipped(options: ReadOptions, children: Option<Seq<LayerView>>) -> bool {
    options.skip_composite_image_data == Some(true) && (options.skip_layer_image_data == Some(true)
        || (children matches Some(layers) && layers.len() > 0))
}

/// The composite image: decoded, or as it is stored, or not at all.
#[verifier::ext_equal]
pub struct CompositePart {
    pub image: Option<PixelDataView>,
    pub raw: Option<CompositeRawView>,
}

/// The composite image as it is stored: all that is left of the document.
pub open spec fn stored_composite(r: ReaderState) -> CompositeRawView {
    CompositeRawView {
        large: r.large,
        global_alpha: r.global_alpha,
        data: composite::rest_of(r),
    }
}

/// The composite image, where it is asked for.
pub open spec fn get_wanted_composite(
    r: ReaderState,
    h: Header,
    palette: Option<Seq<PaletteColor>>,
    children: Option<Seq<LayerView>>,
) -> Parsed<CompositePart> {
    if composite_skipped(r.options, children) {
        Ok((CompositePart { image: None, raw: None }, r))
    } else if r.options.use_raw_data == Some(true) {
        Ok(
            (
                CompositePart { image: None, raw: Some(stored_composite(r)) },
                r.at(
                    if r.offset < r.buffer.len() {
                        r.buffer.len() as int
                    } else {
                        r.offset
                    },
                ),
            ),
        )
    } else {
        match composite::get_composite(r, h, palette) {
            Err(e) => Err(e),
            Ok((image, r1)) => Ok((CompositePart { image: Some(image), raw: None }, r1)),
        }
    }
}

/// A document of these parts. Its composite image is kept as image data or as a
/// canvas where it is decoded.
pub open spec fn document_of(
    h: Header,
    palette: Option<Seq<PaletteColor>>,
    image_resources: Seq<ResourceBlockView>,
    layers: LayerSection,
    composite: CompositePart,
    use_image_data: bool,
) -> PsdView {
    PsdView {
        width: h.width,
        height: h.height,
        channels: Some(h.channels),
        bits_per_channel: Some(h.bits_per_channel),
        color_mode: Some(h.color_mode),
        palette,
        children: layers.children,
        image_data: if use_image_data {
            composite.image
        } else {
            None
        },
        canvas: if use_image_data {
            None
        } else {
            composite.image
        },
        raw_composite_data: composite.raw,
        image_resources: if image_resources.len() == 0 {
            None
        } else {
            Some(image_resources)
        },
        global_layer_mask_info: layers.global_layer_mask_info,
        additional_info: layers.additional_info,
    }
}

/// A document.
pub open spec fn get_psd(r: ReaderState) -> Parsed<PsdView> {
    match header::get_header(r) {
        Err(e) => Err(e),
        Ok((h, r1)) => match palette::get_palette(r1, h.color_mode) {
            Err(e) => Err(e),
            Ok((palette, r2)) => match resources::get_resources(r2) {
                Err(e) => Err(e),
                Ok((image_resources, r3)) => match get_layer_section(r3, h) {
                    Err(e) => Err(e),
                    Ok((layers, r4)) => match get_wanted_composite(
                        r4,
                        h,
                        palette,
                        layers.children,
                    ) {
                        Err(e) => Err(e),
                        Ok((composite, r5)) => Ok(
                            (
                                document_of(
                                    h,
                                    palette,
                                    image_resources,
                                    layers,
                                    composite,
                                    r.options.use_image_data == Some(true),
                                ),
                                r5,
                            ),
                        ),
                    },
                },
            },
        },
    }
}

fn skip_zeros(reader: &mut PsdReader, section: Section) -> (result: ReadResult<()>)
    ensures
        reader::reads(
            result,
            old(reader)@,
            final(reader)@,
            past_zeros(old(reader)@, section.end as int),
        ),
{
    while section.left(reader) > 0
        invariant
            reader@.same_source(old(reader)@),
            past_zeros(reader@, section.end as int) == past_zeros(
                old(reader)@,
                section.end as int,
            ),
        decreases section.rest(reader@),
    {
        let b: u8 = reader::peek_uint8(reader)?;
        if b != 0 {
            return Ok(());
        }
        reader::skip_bytes(reader, 1);
    }
    Ok(())
}

fn read_nested_layers(reader: &mut PsdReader, h: Header, eight_bytes: bool) -> (result: ReadResult<
    Vec<Layer>,
>)
    ensures
        reader::reads(
            result,
            old(reader)@,
            final(reader)@,
            get_nested_layers(old(reader)@, h, eight_bytes),
        ),
{
    match reader::begin_section(reader, false, eight_bytes)? {
        None => {
            let layers: Vec<Layer> = Vec::new();
            assert(layers.deep_view() =~= Seq::<LayerView>::empty());
            Ok(layers)
        },
        Some(section) => {
            let layers: Vec<Layer> = records::read_layer_info(
                reader,
                h.color_mode,
                h.bits_per_channel,
            )?;
            let left: usize = section.left(reader);
            reader::skip_bytes(reader, left);
            reader::end_section(reader, section, 2)?;
            Ok(layers)
        },
    }
}

/// What the blocks of a document say.
spec fn part_of(children: Option<Vec<Layer>>, info: LayerAdditionalInfo) -> BlockPart {
    BlockPart { children: children.deep_view(), additional_info: info.deep_view() }
}

fn read_document_block(
    reader: &mut PsdReader,
    h: Header,
    children: &mut Option<Vec<Layer>>,
    info: &mut LayerAdditionalInfo,
) -> (result: ReadResult<()>)
    ensures
        match get_document_block(old(reader)@, h, part_of(*old(children), *old(info))) {
            Ok((part, state)) => result is Ok && part_of(*final(children), *final(info)) == part
                && final(reader)@ == state && final(reader)@.same_source(old(reader)@),
            Err(e) => result matches Err(err) && err@ == e && final(reader)@.same_source(
                old(reader)@,
            ),
        },
{
    reveal(get_document_block);
    let signature: u32 = info::realign_with_signature(reader, false)?;
    let key: u32 = info::read_key(reader)?;
    let eight_bytes: bool = signature == info::SIGNATURE_8B64 || (reader.large
        && info::is_large_key(key));
    if info::is_holding_layers(key) {
        let mut layers: Vec<Layer> = read_nested_layers(reader, h, eight_bytes)?;
        let ghost found = layers.deep_view();
        match children.take() {
            Some(others) => {
                let mut others: Vec<Layer> = others;
                let ghost there = others.deep_view();
                layers.append(&mut others);
                assert(layers.deep_view() =~= found + there);
            },
            None => {
                assert(layers.deep_view() =~= found + Seq::<LayerView>::empty());
            },
        }
        *children = Some(layers);
    } else {
        let data: Vec<u8> = info::read_payload(reader, eight_bytes)?;
        info::add_block(info, key, data);
    }
    Ok(())
}

fn read_document_blocks(
    reader: &mut PsdReader,
    h: Header,
    section: Section,
    children: &mut Option<Vec<Layer>>,
    info: &mut LayerAdditionalInfo,
) -> (result: ReadResult<()>)
    ensures
        match get_document_blocks(
            old(reader)@,
            h,
            section.end as int,
            part_of(*old(children), *old(info)),
        ) {
            Ok((part, state)) => result is Ok && part_of(*final(children), *final(info)) == part
                && final(reader)@ == state && final(reader)@.same_source(old(reader)@),
            Err(e) => result matches Err(err) && err@ == e && final(reader)@.same_source(
                old(reader)@,
            ),
        },
{
    let size: usize = reader.buffer.len();
    while section.left(reader) > 0
        invariant
            reader@.buffer.len() <= usize::MAX,
            reader@.same_source(old(reader)@),
            get_document_blocks(reader@, h, section.end as int, part_of(*children, *info))
                == get_document_blocks(
                old(reader)@,
                h,
                section.end as int,
                part_of(*old(children), *old(info)),
            ),
        decreases section.rest(reader@),
    {
        proof {
            lemma_past_zeros(reader@, section.end as int);
        }
        skip_zeros(reader, section)?;
        if section.left(reader) < 12 {
            if section.left(reader) > 0 {
                reader.offset = section.end;
            }
            return Ok(());
        }
        proof {
            lemma_document_block_progress(reader@, h, part_of(*children, *info));
        }
        read_document_block(reader, h, children, info)?;
    }
    Ok(())
}

fn read_layer_part(reader: &mut PsdReader, h: Header) -> (result: ReadResult<Option<Vec<Layer>>>)
    ensures
        reader::reads(result, old(reader)@, final(reader)@, get_layer_part(old(reader)@, h)),
{
    reveal(get_layer_part);
    let large: bool = reader.large;
    match reader::begin_section(reader, true, large)? {
        None => Ok(None),
        Some(section) => {
            let layers: Vec<Layer> = records::read_layer_info(
                reader,
                h.color_mode,
                h.bits_per_channel,
            )?;
            let left: usize = section.left(reader);
            reader::skip_bytes(reader, left);
            reader::end_section(reader, section, 2)?;
            Ok(Some(layers))
        },
    }
}

/// Reads the section about layers and masks into `psd`.
fn read_layer_section(reader: &mut PsdReader, h: Header, psd: &mut Psd) -> (result: ReadResult<()>)
    requires
        old(psd).deep_view().children is None,
        old(psd).deep_view().global_layer_mask_info is None,
        old(psd).deep_view().additional_info == crate::psd::empty_info(),
    ensures
        match get_layer_section(old(reader)@, h) {
            Ok((layers, state)) => result is Ok && final(psd).deep_view() == (PsdView {
                children: layers.children,
                global_layer_mask_info: layers.global_layer_mask_info,
                additional_info: layers.additional_info,
                ..old(psd).deep_view()
            }) && final(reader)@ == state && final(reader)@.same_source(old(reader)@),
            Err(e) => result matches Err(err) && err@ == e && final(reader)@.same_source(
                old(reader)@,
            ),
        },
{
    reveal(get_layer_section);
    reveal(get_layer_section_body);
    let large: bool = reader.large;
    match reader::begin_section(reader, true, large)? {
        None => Ok(()),
        Some(section) => {
            psd.children = read_layer_part(reader, h)?;
            if section.left(reader) > 0 {
                psd.global_layer_mask_info = mask::read_global_layer_mask_info(reader)?;
            }
            read_document_blocks(
                reader,
                h,
                section,
                &mut psd.children,
                &mut psd.additional_info,
            )?;
            reader::end_section(reader, section, 1)?;
            Ok(())
        },
    }
}

/// Takes all that is left of a document.
fn keep_composite(reader: &mut PsdReader) -> (raw: CompositeRawData)
    ensures
        raw.deep_view() == stored_composite(old(reader)@),
        final(reader)@ == old(reader)@.at(
            if old(reader)@.offset < old(reader)@.buffer.len() {
                old(reader)@.buffer.len() as int
            } else {
                old(reader)@.offset
            },
        ),
{
    let size: usize = reader.buffer.len();
    let data: Vec<u8> = if reader.offset < size {
        let rest: &[u8] = vstd::slice::slice_subrange(reader.buffer, reader.offset, size);
        reader.offset = size;
        vstd::slice::slice_to_vec(rest)
    } else {
        Vec::new()
    };
    let raw: CompositeRawData = CompositeRawData {
        large: reader.large,
        global_alpha: reader.global_alpha,
        data,
    };
    assert(raw.data@ =~= stored_composite(old(reader)@).data);
    raw
}

/// Reads a document under the settings of the reader.
pub fn read_psd_from_reader(reader: &mut PsdReader) -> (result: ReadResult<Psd>)
    ensures
        reader::reads(result, old(reader)@, final(reader)@, get_psd(old(reader)@)),
{
    let h: Header = header::read_header(reader)?;
    let mut psd: Psd = Psd::default();
    psd.width = h.width;
    psd.height = h.height;
    psd.channels = Some(h.channels);
    psd.bits_per_channel = Some(h.bits_per_channel);
    psd.color_mode = Some(h.color_mode);
    psd.palette = palette::read_palette(reader, h.color_mode)?;
    let image_resources: Vec<ResourceBlock> = resources::read_resources(reader)?;
    if image_resources.len() > 0 {
        psd.image_resources = Some(image_resources);
    }
    read_layer_section(reader, h, &mut psd)?;
    let has_children: bool = match &psd.children {
        Some(children) => children.len() > 0,
        None => false,
    };
    let skip_composite: bool = matches!(reader.options.skip_composite_image_data, Some(true)) && (
    matches!(reader.options.skip_layer_image_data, Some(true)) || has_children);
    if skip_composite {
        return Ok(psd);
    }
    if matches!(reader.options.use_raw_data, Some(true)) {
        psd.raw_composite_data = Some(keep_composite(reader));
        return Ok(psd);
    }
    let image: PixelData = composite::read_image_data(reader, h, &psd.palette)?;
    if matches!(reader.options.use_image_data, Some(true)) {
        psd.image_data = Some(image);
    } else {
        psd.canvas = Some(image);
    }
    Ok(psd)
}

/// A reader at the start of `buffer` under the given settings.
pub open spec fn reader_with(buffer: Seq<u8>, options: ReadOptions) -> ReaderState {
    ReaderState {
        strict: options.strict == Some(true),
        debug: options.debug == Some(true),
        budget: options.total_memory_limit,
        options,
        ..reader::new_reader_state(buffer)
    }
}

/// The document in `buffer`.
pub open spec fn parsed_psd(buffer: Seq<u8>, options: ReadOptions) -> Result<PsdView, ErrorView> {
    match get_psd(reader_with(buffer, options)) {
        Err(e) => Err(e),
        Ok((psd, _)) => Ok(psd),
    }
}

/// Reads a document.
pub fn read_psd(buffer: &[u8], options: &ReadOptions) -> (result: ReadResult<Psd>)
    ensures
        match parsed_psd(buffer@, *options) {
            Ok(psd) => result matches Ok(p) && p.deep_view() == psd,
            Err(e) => result matches Err(err) && err@ == e,
        },
{
    let mut reader: PsdReader = PsdReader::new(buffer, None, None);
    assert(buffer@.subrange(0, buffer@.len() as int) =~= buffer@);
    reader.options = *options;
    reader.strict = matches!(options.strict, Some(true));
    reader.debug = matches!(options.debug, Some(true));
    reader.budget = options.total_memory_limit;
    read_psd_from_reader(&mut reader)
}

} // verus!
