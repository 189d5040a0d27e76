//! Blocks of additional information: a signature, a key and a length-prefixed
//! payload. The block that says what part a record plays in a group is taken
//! apart; the payload of every other block is kept as it is.

use vstd::prelude::*;

use crate::bytes;
use crate::error::{ErrorView, ReadError, ReadResult};
use crate::psd::{
    AdditionalInfoView, InfoBlock, InfoBlockView, LayerAdditionalInfo, SectionDivider,
    SectionDividerType, SectionDividerView,
};
use crate::reader;
use crate::reader::{Parsed, PsdReader, ReaderState, Section};
use crate::roundtrip;
use crate::text;
use crate::writer;
use crate::writer::PsdWriter;

verus! {

broadcast use crate::bytes::group_bytes;

/// `8BIM`.
pub const SIGNATURE_8BIM: u32 = 0x3842_494D;

/// `8B64`.
pub const SIGNATURE_8B64: u32 = 0x3842_3634;

/// `lsct`, the key of the block that says what part a record plays in a group.
pub const SECTION_DIVIDER_KEY: u32 = 0x6C73_6374;

/// `lsdk`, another key of that block.
pub const SECTION_DIVIDER_ALIAS: u32 = 0x6C73_646B;

/// A block with this key says what part a record plays in a group.
pub open spec fn divider_key(key: u32) -> bool {
    key == SECTION_DIVIDER_KEY || key == SECTION_DIVIDER_ALIAS
}

/// A block with this key holds the layers of a document with samples of 16 (Lr16)
/// or 32 (Lr32) bits. A layer has no such block.
pub open spec fn holds_layers(key: u32) -> bool {
    key == 0x4C72_3136 || key == 0x4C72_3332
}

/// Whether a block with this key holds layers.
pub fn is_holding_layers(key: u32) -> (found: bool)
    ensures
        found == holds_layers(key),
{
    key == 0x4C72_3136 || key == 0x4C72_3332
}

/// Whether blocks of additional information or image resources may start with a
/// signature.
pub open spec fn valid_signature(signature: u32, resource: bool) -> bool {
    if resource {
        // 8BIM, MeSa, AgHg, PHUT, DCSR
        signature == SIGNATURE_8BIM || signature == 0x4D65_5361 || signature == 0x4167_4867
            || signature == 0x5048_5554 || signature == 0x4443_5352
    } else {
        signature == SIGNATURE_8BIM || signature == SIGNATURE_8B64
    }
}

fn is_valid_signature(signature: u32, resource: bool) -> (valid: bool)
    ensures
        valid == valid_signature(signature, resource),
{
    if resource {
        signature == SIGNATURE_8BIM || signature == 0x4D65_5361 || signature == 0x4167_4867
            || signature == 0x5048_5554 || signature == 0x4443_5352
    } else {
        signature == SIGNATURE_8BIM || signature == SIGNATURE_8B64
    }
}

/// Whether the length of a block takes eight bytes in the large document format:
/// LMsk, Lr16, Lr32, Layr, Mt16, Mt32, Mtrn, Alph, FMsk, lnk2, FEid, FXid, PxSD, cinf.
pub open spec fn large_key(key: u32) -> bool {
    key == 0x4C4D_736B || key == 0x4C72_3136 || key == 0x4C72_3332 || key == 0x4C61_7972 || key
        == 0x4D74_3136 || key == 0x4D74_3332 || key == 0x4D74_726E || key == 0x416C_7068 || key
        == 0x464D_736B || key == 0x6C6E_6B32 || key == 0x4645_6964 || key == 0x4658_6964 || key
        == 0x5078_5344 || key == 0x6369_6E66
}

/// Whether the length of a block takes eight bytes in the large document format.
pub fn is_large_key(key: u32) -> (large: bool)
    ensures
        large == large_key(key),
{
    key == 0x4C4D_736B || key == 0x4C72_3136 || key == 0x4C72_3332 || key == 0x4C61_7972 || key
        == 0x4D74_3136 || key == 0x4D74_3332 || key == 0x4D74_726E || key == 0x416C_7068 || key
        == 0x464D_736B || key == 0x6C6E_6B32 || key == 0x4645_6964 || key == 0x4658_6964 || key
        == 0x5078_5344 || key == 0x6369_6E66
}

/// Where a signature is looked for, in this order: at the cursor, and up to four
/// bytes before and behind it.
pub open spec fn search_offset(k: int) -> int {
    if k == 0 {
        0
    } else if k == 1 {
        1
    } else if k == 2 {
        -1
    } else if k == 3 {
        2
    } else if k == 4 {
        -2
    } else if k == 5 {
        3
    } else if k == 6 {
        -3
    } else if k == 7 {
        4
    } else {
        -4
    }
}

/// The first valid signature among the places from the `k`-th on, and the place
/// behind it. `last` is what was found at the last place that was looked at.
pub open spec fn found_signature(
    r: ReaderState,
    resource: bool,
    k: int,
    last: Seq<char>,
) -> Parsed<u32>
    decreases 9 - k,
{
    if k >= 9 {
        Err(ErrorView::InvalidSignature { signature: last, offset: r.offset })
    } else {
        let p = r.offset + search_offset(k);
        if p < 0 || p + 4 > r.buffer.len() {
            found_signature(r, resource, k + 1, last)
        } else if valid_signature(bytes::u32_at(r.buffer, p), resource) {
            Ok((bytes::u32_at(r.buffer, p), r.at(p + 4)))
        } else {
            found_signature(r, resource, k + 1, text::latin1(r.buffer.subrange(p, p + 4)))
        }
    }
}

/// The signature of a block, which may be off by up to four bytes.
pub open spec fn get_block_signature(r: ReaderState, resource: bool) -> Parsed<u32> {
    found_signature(r, resource, 0, Seq::empty())
}

/// Reads the signature of a block, which may be off by up to four bytes.
pub fn realign_with_signature(reader: &mut PsdReader, resource: bool) -> (result: ReadResult<u32>)
    ensures
        reader::reads(
            result,
            old(reader)@,
            final(reader)@,
            get_block_signature(old(reader)@, resource),
        ),
{
    let ghost start = reader@;
    let offset: usize = reader.offset;
    let size: usize = reader.buffer.len();
    let mut last: String = String::new();
    let mut k: usize = 0;
    assert(last@ =~= Seq::<char>::empty());
    while k < 9
        invariant
            k <= 9,
            start == old(reader)@,
            reader@ == start,
            offset == start.offset,
            size == start.buffer.len(),
            found_signature(start, resource, k as int, last@) == get_block_signature(
                start,
                resource,
            ),
        decreases 9 - k,
    {
        let distance: usize = (k + 1) / 2;
        let place: Option<usize> = if k % 2 == 0 {
            offset.checked_sub(distance)
        } else {
            offset.checked_add(distance)
        };
        assert(search_offset(k as int) == (if k % 2 == 0 {
            -(distance as int)
        } else {
            distance as int
        }));
        match place {
            None => {},
            Some(p) => {
                if size >= 4 && p <= size - 4 {
                    let b: &[u8] = reader.buffer;
                    let signature: u32 = bytes::u32_from(b, p);
                    if is_valid_signature(signature, resource) {
                        reader.offset = p + 4;
                        return Ok(signature);
                    }
                    last = text::latin1_string(vstd::slice::slice_subrange(b, p, p + 4));
                }
            },
        }
        k += 1;
    }
    Err(ReadError::InvalidSignature { signature: last, offset })
}

/// The key of a block.
pub open spec fn get_key(r: ReaderState) -> Parsed<u32> {
    match reader::get_bytes(r, 4) {
        Err(e) => Err(e),
        Ok((b, s)) => Ok((bytes::u32_at(b, 0), s)),
    }
}

/// Reads the key of a block.
pub fn read_key(reader: &mut PsdReader) -> (result: ReadResult<u32>)
    ensures
        reader::reads(result, old(reader)@, final(reader)@, get_key(old(reader)@)),
{
    let b: Vec<u8> = reader::read_bytes(reader, 4)?;
    Ok(bytes::u32_from(&b, 0))
}

/// The number of a part that a record plays in a group.
pub open spec fn divider_code(t: SectionDividerType) -> u32 {
    match t {
        SectionDividerType::Other => 0,
        SectionDividerType::OpenFolder => 1,
        SectionDividerType::ClosedFolder => 2,
        SectionDividerType::BoundingSectionDivider => 3,
    }
}

/// The part that a record plays in a group, by its number.
pub open spec fn divider_type_of(code: u32) -> Option<SectionDividerType> {
    if code == 0 {
        Some(SectionDividerType::Other)
    } else if code == 1 {
        Some(SectionDividerType::OpenFolder)
    } else if code == 2 {
        Some(SectionDividerType::ClosedFolder)
    } else if code == 3 {
        Some(SectionDividerType::BoundingSectionDivider)
    } else {
        None
    }
}

/// What the payload of a divider block says: the part that a record plays, the
/// key of the blend mode of the group, and the kind of group, as far as they are there.
pub open spec fn divider_of(data: Seq<u8>) -> Option<SectionDividerView> {
    if data.len() < 4 || divider_type_of(bytes::u32_at(data, 0)) is None {
        None
    } else {
        let divider_type = divider_type_of(bytes::u32_at(data, 0))->Some_0;
        if data.len() == 4 {
            Some(SectionDividerView { divider_type, key: None, sub_type: None })
        } else if data.len() < 12 || bytes::u32_at(data, 4) != SIGNATURE_8BIM {
            None
        } else {
            Some(
                SectionDividerView {
                    divider_type,
                    key: Some(text::latin1(data.subrange(8, 12))),
                    sub_type: if data.len() >= 16 {
                        Some(bytes::u32_at(data, 12))
                    } else {
                        None
                    },
                },
            )
        }
    }
}

fn parse_divider(data: &Vec<u8>) -> (divider: Option<SectionDivider>)
    ensures
        divider.deep_view() == divider_of(data@),
{
    if data.len() < 4 {
        return None;
    }
    let divider_type: SectionDividerType = match bytes::u32_from(data, 0) {
        0 => SectionDividerType::Other,
        1 => SectionDividerType::OpenFolder,
        2 => SectionDividerType::ClosedFolder,
        3 => SectionDividerType::BoundingSectionDivider,
        _ => {
            return None;
        },
    };
    if data.len() == 4 {
        return Some(SectionDivider { divider_type, key: None, sub_type: None });
    }
    if data.len() < 12 || bytes::u32_from(data, 4) != SIGNATURE_8BIM {
        return None;
    }
    let key: String = text::latin1_string(
        vstd::slice::slice_subrange(data.as_slice(), 8, 12),
    );
    let sub_type: Option<u32> = if data.len() >= 16 {
        Some(bytes::u32_from(data, 12))
    } else {
        None
    };
    Some(SectionDivider { divider_type, key: Some(key), sub_type })
}

/// `info` with one more block.
pub open spec fn with_block(
    info: AdditionalInfoView,
    key: u32,
    data: Seq<u8>,
) -> AdditionalInfoView {
    if divider_key(key) && divider_of(data) is Some {
        AdditionalInfoView { section_divider: divider_of(data), ..info }
    } else {
        AdditionalInfoView { blocks: info.blocks.push(InfoBlockView { key, data }), ..info }
    }
}

/// The payload of a block, from its length on.
pub open spec fn get_payload(r: ReaderState, eight_bytes: bool) -> Parsed<Seq<u8>> {
    match reader::open_section(r, false, eight_bytes) {
        Err(e) => Err(e),
        Ok((None, r1)) => Ok((Seq::empty(), r1)),
        Ok((Some(section), r1)) => match reader::get_bytes(r1, section.length as int) {
            Err(e) => Err(e),
            Ok((data, r2)) => match reader::close_section(r2, section, 2) {
                Err(e) => Err(e),
                Ok((_, r3)) => Ok((data, r3)),
            },
        },
    }
}

/// `info` with the block at the cursor. Layers cannot be in a layer.
pub open spec fn get_block(r: ReaderState, info: AdditionalInfoView) -> Parsed<AdditionalInfoView> {
    match get_block_signature(r, false) {
        Err(e) => Err(e),
        Ok((signature, r1)) => match get_key(r1) {
            Err(e) => Err(e),
            Ok((key, r2)) => if holds_layers(key) {
                Err(ErrorView::StrictViolation("Layers inside of a layer"@))
            } else {
                match get_payload(
                    r2,
                    signature == SIGNATURE_8B64 || (r2.large && large_key(key)),
                ) {
                    Err(e) => Err(e),
                    Ok((data, r3)) => Ok((with_block(info, key, data), r3)),
                }
            },
        },
    }
}

/// Reads the payload of a block, from its length on.
pub fn read_payload(reader: &mut PsdReader, eight_bytes: bool) -> (result: ReadResult<Vec<u8>>)
    ensures
        reader::reads(
            result,
            old(reader)@,
            final(reader)@,
            get_payload(old(reader)@, eight_bytes),
        ),
{
    match reader::begin_section(reader, false, eight_bytes)? {
        None => Ok(Vec::new()),
        Some(section) => {
            let data: Vec<u8> = reader::read_bytes(reader, section.length)?;
            reader::end_section(reader, section, 2)?;
            Ok(data)
        },
    }
}

/// Reads the block at the cursor into `info`.
pub fn read_additional_layer_info(reader: &mut PsdReader, info: &mut LayerAdditionalInfo) -> (result:
    ReadResult<()>)
    ensures
        match get_block(old(reader)@, old(info).deep_view()) {
            Ok((added, state)) => result is Ok && final(info).deep_view() == added && final(reader)@
                == state && final(reader)@.same_source(old(reader)@),
            Err(e) => result matches Err(err) && err@ == e && final(reader)@.same_source(
                old(reader)@,
            ),
        },
{
    proof {
        lemma_signature_progress(reader@, false, 0, Seq::empty());
    }
    let signature: u32 = realign_with_signature(reader, false)?;
    let key: u32 = read_key(reader)?;
    if is_holding_layers(key) {
        return Err(ReadError::StrictViolation(text::owned_text("Layers inside of a layer")));
    }
    let eight_bytes: bool = signature == SIGNATURE_8B64 || (reader.large && is_large_key(key));
    let data: Vec<u8> = read_payload(reader, eight_bytes)?;
    add_block(info, key, data);
    Ok(())
}

/// Adds a block to what is known.
pub fn add_block(info: &mut LayerAdditionalInfo, key: u32, data: Vec<u8>)
    ensures
        final(info).deep_view() == with_block(old(info).deep_view(), key, data@),
{
    let ghost before = info.deep_view();
    if key == SECTION_DIVIDER_KEY || key == SECTION_DIVIDER_ALIAS {
        let divider: Option<SectionDivider> = parse_divider(&data);
        if divider.is_some() {
            info.section_divider = divider;
            return;
        }
    }
    info.blocks.push(InfoBlock { key, data });
    assert(info.blocks.deep_view() =~= before.blocks.push(InfoBlockView { key, data: data@ }));
}

/// A block takes at least eight bytes.
pub proof fn lemma_block_progress(r: ReaderState, info: AdditionalInfoView)
    requires
        r.buffer.len() <= usize::MAX,
    ensures
        get_block(r, info) matches Ok((_, after)) ==> r.offset + 8 <= after.offset
            && after.same_source(r) && after.large == r.large && after.budget == r.budget
            && after.global_alpha == r.global_alpha,
{
    lemma_signature_progress(r, false, 0, Seq::empty());
}

/// A signature ends behind the cursor at the earliest.
pub proof fn lemma_signature_progress(r: ReaderState, resource: bool, k: int, last: Seq<char>)
    requires
        0 <= k <= 9,
    ensures
        found_signature(r, resource, k, last) matches Ok((_, after)) ==> r.offset <= after.offset
            && after == r.at(after.offset),
    decreases 9 - k,
{
    if k < 9 {
        let p = r.offset + search_offset(k);
        lemma_signature_progress(r, resource, k + 1, last);
        lemma_signature_progress(
            r,
            resource,
            k + 1,
            text::latin1(r.buffer.subrange(p, p + 4)),
        );
    }
}

/// `info` with the blocks up to `end`, as long as a block may still fit.
pub open spec fn get_blocks(r: ReaderState, end: int, info: AdditionalInfoView) -> Parsed<
    AdditionalInfoView,
>
    decreases
            (if end < r.offset {
                0
            } else {
                end - r.offset
            }),
    when r.buffer.len() <= usize::MAX
    via get_blocks_decreases
{
    if end - r.offset < 12 {
        Ok((info, r))
    } else {
        match get_block(r, info) {
            Err(e) => Err(e),
            Ok((more, r1)) => get_blocks(r1, end, more),
        }
    }
}

#[via_fn]
proof fn get_blocks_decreases(r: ReaderState, end: int, info: AdditionalInfoView) {
    lemma_block_progress(r, info);
}

/// Reads the blocks of a section into `info`, as long as a block may still fit.
pub fn read_blocks(reader: &mut PsdReader, section: Section, info: &mut LayerAdditionalInfo) -> (result:
    ReadResult<()>)
    ensures
        match get_blocks(old(reader)@, section.end as int, old(info).deep_view()) {
            Ok((added, state)) => result is Ok && final(info).deep_view() == added && final(reader)@
                == state && final(reader)@.same_source(old(reader)@),
            Err(e) => result matches Err(err) && err@ == e && final(reader)@.same_source(
                old(reader)@,
            ),
        },
{
    let size: usize = reader.buffer.len();
    while section.left(reader) >= 12
        invariant
            reader@.buffer.len() <= usize::MAX,
            reader@.same_source(old(reader)@),
            get_blocks(reader@, section.end as int, info.deep_view()) == get_blocks(
                old(reader)@,
                section.end as int,
                old(info).deep_view(),
            ),
        decreases section.rest(reader@),
    {
        proof {
            lemma_block_progress(reader@, info.deep_view());
        }
        read_additional_layer_info(reader, info)?;
    }
    Ok(())
}

/// A block: signature, key, length and payload.
pub open spec fn block_bytes(key: u32, data: Seq<u8>, psb: bool) -> Seq<u8> {
    let large = psb && large_key(key);
    bytes::u32_bytes(
        if large {
            SIGNATURE_8B64
        } else {
            SIGNATURE_8BIM
        },
    ) + bytes::u32_bytes(key) + writer::section_bytes(data, 2, false, large)
}

/// The payload of the block that says what part a record plays in a group.
pub open spec fn divider_bytes(d: SectionDividerView) -> Seq<u8> {
    bytes::u32_bytes(divider_code(d.divider_type)) + (match d.key {
        None => Seq::empty(),
        Some(key) => bytes::u32_bytes(SIGNATURE_8BIM) + vstd::utf8::encode_utf8(key) + (match d.sub_type {
            None => Seq::empty(),
            Some(sub_type) => bytes::u32_bytes(sub_type),
        }),
    })
}

/// The bytes of each block.
pub open spec fn block_pieces(blocks: Seq<InfoBlockView>, psb: bool) -> Seq<Seq<u8>> {
    Seq::new(blocks.len(), |i: int| block_bytes(blocks[i].key, blocks[i].data, psb))
}

/// The blocks, one after the other.
pub open spec fn blocks_bytes(blocks: Seq<InfoBlockView>, psb: bool) -> Seq<u8> {
    bytes::concat(block_pieces(blocks, psb))
}

/// All blocks of `info`: the one of the divider first.
pub open spec fn info_bytes(info: AdditionalInfoView, psb: bool) -> Seq<u8> {
    (match info.section_divider {
        None => Seq::empty(),
        Some(divider) => block_bytes(SECTION_DIVIDER_KEY, divider_bytes(divider), psb),
    }) + blocks_bytes(info.blocks, psb)
}

/// The key in a divider takes four bytes.
pub open spec fn divider_wf(info: AdditionalInfoView) -> bool {
    info.section_divider matches Some(d) ==> (d.key matches Some(key) ==> vstd::utf8::encode_utf8(
        key,
    ).len() == 4)
}

/// Writes the payload of a block behind its length, padded to an even length.
pub fn write_payload(writer: &mut PsdWriter, data: &[u8], large: bool)
    requires
        old(writer).wf(),
    ensures
        writer::wrote(
            *old(writer),
            *final(writer),
            writer::section_bytes(data@, 2, false, large),
        ),
{
    let ghost base = writer.data();
    assert(base.len() == writer.offset);
    let start: usize = writer::begin_section(writer, large);
    writer::write_bytes(writer, Some(data));
    writer::end_section(writer, start, 2, false);
    proof {
        writer::lemma_section_written(base, data@, 2, false, large);
        assert(writer.data().len() == writer.offset);
    }
}

fn write_block(writer: &mut PsdWriter, key: u32, data: &[u8], psb: bool)
    requires
        old(writer).wf(),
    ensures
        writer::wrote(*old(writer), *final(writer), block_bytes(key, data@, psb)),
{
    let large: bool = psb && is_large_key(key);
    let signature: u32 = if large {
        SIGNATURE_8B64
    } else {
        SIGNATURE_8BIM
    };
    writer::write_uint32(writer, signature);
    writer::write_uint32(writer, key);
    write_payload(writer, data, large);
    assert(writer.data() =~= old(writer).data() + block_bytes(key, data@, psb));
}

fn encode_divider(divider: &SectionDivider) -> (data: Vec<u8>)
    requires
        divider.deep_view().key matches Some(key) ==> vstd::utf8::encode_utf8(key).len() == 4,
    ensures
        data@ == divider_bytes(divider.deep_view()),
{
    let mut w: PsdWriter = writer::create_writer(16);
    let code: u32 = match divider.divider_type {
        SectionDividerType::Other => 0,
        SectionDividerType::OpenFolder => 1,
        SectionDividerType::ClosedFolder => 2,
        SectionDividerType::BoundingSectionDivider => 3,
    };
    writer::write_uint32(&mut w, code);
    match &divider.key {
        None => {},
        Some(key) => {
            writer::write_uint32(&mut w, SIGNATURE_8BIM);
            writer::write_signature(&mut w, key.as_str());
            match divider.sub_type {
                None => {},
                Some(sub_type) => {
                    writer::write_uint32(&mut w, sub_type);
                },
            }
        },
    }
    assert(w.data() =~= divider_bytes(divider.deep_view()));
    writer::get_writer_buffer(&w)
}

/// Writes all blocks of `info`: the one of the divider first.
pub fn write_additional_info(writer: &mut PsdWriter, info: &LayerAdditionalInfo, psb: bool)
    requires
        old(writer).wf(),
        divider_wf(info.deep_view()),
    ensures
        writer::wrote(*old(writer), *final(writer), info_bytes(info.deep_view(), psb)),
{
    let ghost view = info.deep_view();
    match &info.section_divider {
        None => {},
        Some(divider) => {
            let data: Vec<u8> = encode_divider(divider);
            write_block(writer, SECTION_DIVIDER_KEY, &data, psb);
        },
    }
    let ghost head = match view.section_divider {
        None => Seq::<u8>::empty(),
        Some(divider) => block_bytes(SECTION_DIVIDER_KEY, divider_bytes(divider), psb),
    };
    let mut i: usize = 0;
    assert(view.blocks.take(0) =~= Seq::<InfoBlockView>::empty());
    assert(writer.data() =~= old(writer).data() + head + blocks_bytes(view.blocks.take(0), psb));
    while i < info.blocks.len()
        invariant
            i <= info.blocks@.len(),
            view == info.deep_view(),
            writer.wf(),
            writer.temp_buffer == old(writer).temp_buffer,
            writer::grew(*old(writer), *writer),
            writer.offset == old(writer).offset + head.len() + blocks_bytes(
                view.blocks.take(i as int),
                psb,
            ).len(),
            writer.data() == old(writer).data() + head + blocks_bytes(
                view.blocks.take(i as int),
                psb,
            ),
        decreases info.blocks@.len() - i,
    {
        write_block(writer, info.blocks[i].key, &info.blocks[i].data, psb);
        proof {
            let done = view.blocks.take(i + 1);
            assert(block_pieces(done, psb).drop_last() =~= block_pieces(
                view.blocks.take(i as int),
                psb,
            ));
            assert(writer.data() =~= old(writer).data() + head + blocks_bytes(done, psb));
        }
        i += 1;
    }
    assert(view.blocks.take(i as int) =~= view.blocks);
    assert(writer.data() =~= old(writer).data() + info_bytes(view, psb));
}

/// The signature, the key and the payload of a block are read where they were
/// written.
pub proof fn lemma_block_parts(r: ReaderState, key: u32, data: Seq<u8>, psb: bool)
    requires
        r.buffer.len() <= usize::MAX,
        r.large == psb,
        data.len() < 0x1_0000_0000,
        bytes::holds_at(r.buffer, r.offset, block_bytes(key, data, psb)),
    ensures
        ({
            let large = psb && large_key(key);
            let signature = if large {
                SIGNATURE_8B64
            } else {
                SIGNATURE_8BIM
            };
            &&& get_block_signature(r, false) == Ok::<(u32, ReaderState), ErrorView>(
                (signature, r.at(r.offset + 4)),
            )
            &&& get_key(r.at(r.offset + 4)) == Ok::<(u32, ReaderState), ErrorView>(
                (key, r.at(r.offset + 8)),
            )
            &&& get_payload(r.at(r.offset + 8), large) == Ok::<(Seq<u8>, ReaderState), ErrorView>(
                (data, r.at(r.offset + block_bytes(key, data, psb).len())),
            )
        }),
        block_bytes(key, data, psb).len() >= 12,
        block_bytes(key, data, psb).len() % 2 == 0,
{
    let large = psb && large_key(key);
    let signature = if large {
        SIGNATURE_8B64
    } else {
        SIGNATURE_8BIM
    };
    let head = bytes::u32_bytes(signature);
    let name = bytes::u32_bytes(key);
    let payload = writer::section_bytes(data, 2, false, large);
    bytes::lemma_holds_at_split(r.buffer, r.offset, head + name, payload);
    bytes::lemma_holds_at_split(r.buffer, r.offset, head, name);
    bytes::lemma_u32_at(r.buffer, r.offset, signature);
    let r1 = r.at(r.offset + 4);
    assert(get_block_signature(r, false) == Ok::<(u32, ReaderState), ErrorView>((signature, r1)));
    let r2 = r.at(r.offset + 8);
    roundtrip::law_bytes_round_trip(r1, name);
    bytes::lemma_piece_holds(name, Seq::empty(), name, Seq::empty());
    bytes::lemma_u32_at(name, 0, key);
    assert(get_key(r1) == Ok::<(u32, ReaderState), ErrorView>((key, r2)));
    roundtrip::law_section_round_trip(r2, data, 2, false, large, false);
    roundtrip::law_bytes_round_trip(r2.at(r2.offset + roundtrip::length_size(large)), data);
}

/// A block is read where it was written.
pub proof fn law_block_round_trip(
    r: ReaderState,
    info: AdditionalInfoView,
    key: u32,
    data: Seq<u8>,
    psb: bool,
)
    requires
        r.buffer.len() <= usize::MAX,
        r.large == psb,
        data.len() < 0x1_0000_0000,
        !holds_layers(key),
        bytes::holds_at(r.buffer, r.offset, block_bytes(key, data, psb)),
    ensures
        get_block(r, info) == Ok::<(AdditionalInfoView, ReaderState), ErrorView>(
            (with_block(info, key, data), r.at(r.offset + block_bytes(key, data, psb).len())),
        ),
        block_bytes(key, data, psb).len() >= 12,
{
    lemma_block_parts(r, key, data, psb);
}

/// A divider as it comes back from its block: without a key there is no kind of
/// group either.
pub open spec fn stored_divider(d: SectionDividerView) -> SectionDividerView {
    if d.key is None {
        SectionDividerView { sub_type: None, ..d }
    } else {
        d
    }
}

/// A divider comes back from its payload.
pub proof fn law_divider_round_trip(d: SectionDividerView)
    requires
        d.key matches Some(key) ==> roundtrip::is_ascii_signature(key),
    ensures
        divider_of(divider_bytes(d)) == Some(stored_divider(d)),
        divider_bytes(d).len() <= 16,
{
    let data = divider_bytes(d);
    let code = bytes::u32_bytes(divider_code(d.divider_type));
    bytes::lemma_piece_holds(data, Seq::empty(), code, data.skip(4));
    bytes::lemma_u32_at(data, 0, divider_code(d.divider_type));
    match d.key {
        None => {},
        Some(key) => {
            roundtrip::lemma_signature_bytes(key);
            let name = vstd::utf8::encode_utf8(key);
            bytes::lemma_piece_holds(
                data,
                code,
                bytes::u32_bytes(SIGNATURE_8BIM),
                data.skip(8),
            );
            bytes::lemma_u32_at(data, 4, SIGNATURE_8BIM);
            assert(data.subrange(8, 12) =~= name);
            match d.sub_type {
                None => {},
                Some(sub_type) => {
                    bytes::lemma_piece_holds(
                        data,
                        data.take(12),
                        bytes::u32_bytes(sub_type),
                        Seq::empty(),
                    );
                    bytes::lemma_u32_at(data, 12, sub_type);
                },
            }
        },
    }
}

/// What is known besides the blocks themselves can be told from them: no block
/// is a divider or holds layers, and every length fits in four bytes.
pub open spec fn blocks_distinct(blocks: Seq<InfoBlockView>) -> bool {
    forall|i: int|
        0 <= i < blocks.len() ==> (#[trigger] blocks[i]).data.len() < 0x1_0000_0000 && !(
        divider_key(blocks[i].key) && divider_of(blocks[i].data) is Some) && !holds_layers(
            blocks[i].key,
        )
}

proof fn lemma_blocks_read_back(
    r: ReaderState,
    base: int,
    info: AdditionalInfoView,
    blocks: Seq<InfoBlockView>,
    k: int,
    psb: bool,
)
    requires
        r.buffer.len() <= usize::MAX,
        r.large == psb,
        blocks_distinct(blocks),
        0 <= k <= blocks.len(),
        bytes::holds_at(r.buffer, base, blocks_bytes(blocks, psb)),
        r.offset == base + blocks_bytes(blocks.take(k), psb).len(),
    ensures
        get_blocks(
            r,
            base + blocks_bytes(blocks, psb).len() as int,
            AdditionalInfoView { blocks: info.blocks + blocks.take(k), ..info },
        ) == Ok::<(AdditionalInfoView, ReaderState), ErrorView>(
            (
                AdditionalInfoView { blocks: info.blocks + blocks, ..info },
                r.at(base + blocks_bytes(blocks, psb).len()),
            ),
        ),
    decreases blocks.len() - k,
{
    let end = base + blocks_bytes(blocks, psb).len() as int;
    let pieces = block_pieces(blocks, psb);
    let now = AdditionalInfoView { blocks: info.blocks + blocks.take(k), ..info };
    assert(pieces.take(k) =~= block_pieces(blocks.take(k), psb));
    if k == blocks.len() {
        assert(blocks.take(k) =~= blocks);
    } else {
        let b = blocks[k];
        bytes::lemma_holds_at_piece(r.buffer, base, pieces, k);
        law_block_round_trip(r, now, b.key, b.data, psb);
        bytes::lemma_concat_take(pieces, k);
        assert(pieces.take(k + 1) =~= block_pieces(blocks.take(k + 1), psb));
        assert(info.blocks + blocks.take(k + 1) =~= (info.blocks + blocks.take(k)).push(b));
        let r1 = r.at(base + blocks_bytes(blocks.take(k + 1), psb).len());
        lemma_blocks_read_back(r1, base, info, blocks, k + 1, psb);
        bytes::lemma_concat_prefix(pieces, k + 1);
    }
}

/// The blocks of `info` are read where they were written.
pub proof fn law_info_round_trip(
    r: ReaderState,
    start: AdditionalInfoView,
    info: AdditionalInfoView,
    psb: bool,
)
    requires
        r.buffer.len() <= usize::MAX,
        r.large == psb,
        start.section_divider is None,
        blocks_distinct(info.blocks),
        info.section_divider matches Some(d) ==> (d.key matches Some(key)
            ==> roundtrip::is_ascii_signature(key)),
        bytes::holds_at(r.buffer, r.offset, info_bytes(info, psb)),
    ensures
        get_blocks(r, r.offset + info_bytes(info, psb).len() as int, start) == Ok::<
            (AdditionalInfoView, ReaderState),
            ErrorView,
        >(
            (
                AdditionalInfoView {
                    section_divider: match info.section_divider {
                        Some(d) => Some(stored_divider(d)),
                        None => None,
                    },
                    blocks: start.blocks + info.blocks,
                    ..start
                },
                r.at(r.offset + info_bytes(info, psb).len()),
            ),
        ),
{
    let tail = blocks_bytes(info.blocks, psb);
    assert(info.blocks.take(0) =~= Seq::<InfoBlockView>::empty());
    assert(blocks_bytes(info.blocks.take(0), psb) =~= Seq::<u8>::empty());
    match info.section_divider {
        None => {
            assert(info_bytes(info, psb) =~= tail);
            assert(start.blocks + info.blocks.take(0) =~= start.blocks);
            lemma_blocks_read_back(r, r.offset, start, info.blocks, 0, psb);
        },
        Some(d) => {
            let data = divider_bytes(d);
            let head = block_bytes(SECTION_DIVIDER_KEY, data, psb);
            law_divider_round_trip(d);
            bytes::lemma_holds_at_split(r.buffer, r.offset, head, tail);
            law_block_round_trip(r, start, SECTION_DIVIDER_KEY, data, psb);
            let divided = AdditionalInfoView { section_divider: Some(stored_divider(d)), ..start };
            let r1 = r.at(r.offset + head.len());
            assert(divided.blocks + info.blocks.take(0) =~= divided.blocks);
            lemma_blocks_read_back(r1, r1.offset, divided, info.blocks, 0, psb);
        },
    }
}

} // verus!
