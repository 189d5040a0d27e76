//! Rectangles, masks and blending ranges of layers.

use vstd::prelude::*;

use crate::bytes;
use crate::error::{ErrorView, ReadError, ReadResult};
use crate::helpers::{Bounds, LayerMaskFlags, MaskParams};
use crate::psd;
use crate::psd::{
    AdditionalInfoView, BlendingRange, BlendingRanges, BlendingRangesView, GlobalLayerMaskInfo,
    LayerAdditionalInfo, LayerMaskData, LayerMaskView,
};
use crate::reader;
use crate::reader::{Parsed, PsdReader, ReaderState, Section};
use crate::roundtrip;
use crate::text;
use crate::writer;
use crate::writer::PsdWriter;

verus! {

broadcast use crate::bytes::group_bytes;

/// No side of a rectangle is longer than this.
pub open spec fn max_side(large: bool) -> int {
    if large {
        300000
    } else {
        30000
    }
}

pub open spec fn box_width(b: Bounds) -> int {
    b.right - b.left
}

pub open spec fn box_height(b: Bounds) -> int {
    b.bottom - b.top
}

/// The rectangle is not turned inside out, and no side is too long.
pub open spec fn valid_box(b: Bounds, large: bool) -> bool {
    &&& 0 <= box_width(b) <= max_side(large)
    &&& 0 <= box_height(b) <= max_side(large)
}

/// A rectangle that is valid.
pub open spec fn checked_box(r: ReaderState, b: Bounds, kind: Seq<char>) -> Parsed<Bounds> {
    if valid_box(b, r.large) {
        Ok((b, r))
    } else {
        Err(ErrorView::InvalidBoxSize { kind, width: box_width(b), height: box_height(b) })
    }
}

/// Fails where a rectangle is turned inside out or too large.
pub fn check_box(b: Bounds, kind: &str, large: bool) -> (result: ReadResult<()>)
    ensures
        match result {
            Ok(_) => valid_box(b, large),
            Err(e) => !valid_box(b, large) && e@ == (ErrorView::InvalidBoxSize {
                kind: kind@,
                width: box_width(b),
                height: box_height(b),
            }),
        },
{
    let width: i64 = b.right as i64 - b.left as i64;
    let height: i64 = b.bottom as i64 - b.top as i64;
    let max: i64 = if large {
        300000
    } else {
        30000
    };
    if width < 0 || height < 0 || width > max || height > max {
        return Err(ReadError::InvalidBoxSize { kind: text::owned_text(kind), width, height });
    }
    Ok(())
}

/// A rectangle: top, left, bottom, right.
pub open spec fn get_bounds(r: ReaderState) -> Parsed<Bounds> {
    match reader::get_i32(r) {
        Err(e) => Err(e),
        Ok((top, r1)) => match reader::get_i32(r1) {
            Err(e) => Err(e),
            Ok((left, r2)) => match reader::get_i32(r2) {
                Err(e) => Err(e),
                Ok((bottom, r3)) => match reader::get_i32(r3) {
                    Err(e) => Err(e),
                    Ok((right, r4)) => Ok((Bounds { top, left, right, bottom }, r4)),
                },
            },
        },
    }
}

/// A rectangle that is valid: top, left, bottom, right.
pub open spec fn get_box(r: ReaderState, kind: Seq<char>) -> Parsed<Bounds> {
    match get_bounds(r) {
        Err(e) => Err(e),
        Ok((b, r1)) => checked_box(r1, b, kind),
    }
}

/// Reads a rectangle and fails where it is not valid.
pub fn read_box(reader: &mut PsdReader, kind: &str) -> (result: ReadResult<Bounds>)
    ensures
        reader::reads(result, old(reader)@, final(reader)@, get_box(old(reader)@, kind@)),
{
    let top: i32 = reader::read_int32(reader)?;
    let left: i32 = reader::read_int32(reader)?;
    let bottom: i32 = reader::read_int32(reader)?;
    let right: i32 = reader::read_int32(reader)?;
    let b: Bounds = Bounds { top, left, right, bottom };
    check_box(b, kind, reader.large)?;
    Ok(b)
}

/// The bytes of a rectangle.
pub open spec fn bounds_bytes(b: Bounds) -> Seq<u8> {
    bytes::u32_bytes(bytes::i32_bits(b.top)) + bytes::u32_bytes(bytes::i32_bits(b.left))
        + bytes::u32_bytes(bytes::i32_bits(b.bottom)) + bytes::u32_bytes(bytes::i32_bits(b.right))
}

/// Writes a rectangle.
pub fn write_bounds(writer: &mut PsdWriter, b: Bounds)
    requires
        old(writer).wf(),
    ensures
        writer::wrote(*old(writer), *final(writer), bounds_bytes(b)),
{
    writer::write_int32(writer, b.top);
    writer::write_int32(writer, b.left);
    writer::write_int32(writer, b.bottom);
    writer::write_int32(writer, b.right);
    assert(writer.data() =~= old(writer).data() + bounds_bytes(b));
}

/// A valid rectangle is read where it was written.
pub proof fn law_box_round_trip(r: ReaderState, b: Bounds, kind: Seq<char>)
    requires
        bytes::holds_at(r.buffer, r.offset, bounds_bytes(b)),
        valid_box(b, r.large),
    ensures
        get_box(r, kind) == Ok::<(Bounds, ReaderState), ErrorView>((b, r.at(r.offset + 16))),
        bounds_bytes(b).len() == 16,
{
    let top = bytes::u32_bytes(bytes::i32_bits(b.top));
    let left = bytes::u32_bytes(bytes::i32_bits(b.left));
    let bottom = bytes::u32_bytes(bytes::i32_bits(b.bottom));
    let right = bytes::u32_bytes(bytes::i32_bits(b.right));
    bytes::lemma_holds_at_split(r.buffer, r.offset, top + left + bottom, right);
    bytes::lemma_holds_at_split(r.buffer, r.offset, top + left, bottom);
    bytes::lemma_holds_at_split(r.buffer, r.offset, top, left);
    roundtrip::law_int32_round_trip(r, b.top);
    roundtrip::law_int32_round_trip(r.at(r.offset + 4), b.left);
    roundtrip::law_int32_round_trip(r.at(r.offset + 8), b.bottom);
    roundtrip::law_int32_round_trip(r.at(r.offset + 12), b.right);
}

/// The bit of the given weight is set.
#[verifier::opaque]
pub open spec fn bit_set(flags: u8, weight: u8) -> bool {
    (flags / weight) % 2 == 1
}

/// Whether the bit of the given weight is set.
pub fn has_bit(flags: u8, weight: u8) -> (set: bool)
    requires
        weight > 0,
    ensures
        set == bit_set(flags, weight),
{
    reveal(bit_set);
    (flags / weight) % 2 == 1
}

/// A mask with the given rectangle, colour and flags.
pub open spec fn mask_from(b: Bounds, color: u8, flags: u8) -> LayerMaskView {
    LayerMaskView {
        top: Some(b.top),
        left: Some(b.left),
        bottom: Some(b.bottom),
        right: Some(b.right),
        default_color: Some(color),
        position_relative_to_layer: Some(bit_set(flags, 1)),
        disabled: Some(bit_set(flags, 2)),
        from_vector_data: Some(bit_set(flags, 8)),
        ..psd::empty_mask()
    }
}

fn make_mask(b: Bounds, color: u8, flags: u8) -> (mask: LayerMaskData)
    ensures
        mask.deep_view() == mask_from(b, color, flags),
{
    let mut mask: LayerMaskData = LayerMaskData::default();
    mask.top = Some(b.top);
    mask.left = Some(b.left);
    mask.bottom = Some(b.bottom);
    mask.right = Some(b.right);
    mask.default_color = Some(color);
    mask.position_relative_to_layer = Some(
        has_bit(flags, LayerMaskFlags::PositionRelativeToLayer.code()),
    );
    mask.disabled = Some(has_bit(flags, LayerMaskFlags::LayerMaskDisabled.code()));
    mask.from_vector_data = Some(
        has_bit(flags, LayerMaskFlags::LayerMaskFromRenderingOtherData.code()),
    );
    mask
}

/// The mask that was there before it was applied to a vector mask: flags, colour, rectangle.
pub open spec fn get_real_mask(r: ReaderState) -> Parsed<LayerMaskView> {
    match reader::get_u8(r) {
        Err(e) => Err(e),
        Ok((flags, r1)) => match reader::get_u8(r1) {
            Err(e) => Err(e),
            Ok((color, r2)) => match get_box(r2, "real mask"@) {
                Err(e) => Err(e),
                Ok((b, r3)) => Ok((mask_from(b, color, flags), r3)),
            },
        },
    }
}

fn read_real_mask(reader: &mut PsdReader) -> (result: ReadResult<LayerMaskData>)
    ensures
        reader::reads(result, old(reader)@, final(reader)@, get_real_mask(old(reader)@)),
{
    let flags: u8 = reader::read_uint8(reader)?;
    let color: u8 = reader::read_uint8(reader)?;
    let b: Bounds = read_box(reader, "real mask")?;
    Ok(make_mask(b, color, flags))
}

/// A byte that is there if `present` says so.
pub open spec fn get_optional_u8(r: ReaderState, present: bool) -> Parsed<Option<u8>> {
    if !present {
        Ok((None, r))
    } else {
        match reader::get_u8(r) {
            Err(e) => Err(e),
            Ok((v, r1)) => Ok((Some(v), r1)),
        }
    }
}

/// A 64-bit number that is there if `present` says so.
pub open spec fn get_optional_u64(r: ReaderState, present: bool) -> Parsed<Option<u64>> {
    if !present {
        Ok((None, r))
    } else {
        match reader::get_u64(r) {
            Err(e) => Err(e),
            Ok((v, r1)) => Ok((Some(v), r1)),
        }
    }
}

fn read_optional_u8(reader: &mut PsdReader, present: bool) -> (result: ReadResult<Option<u8>>)
    ensures
        reader::reads(result, old(reader)@, final(reader)@, get_optional_u8(old(reader)@, present)),
{
    if !present {
        return Ok(None);
    }
    let v: u8 = reader::read_uint8(reader)?;
    Ok(Some(v))
}

fn read_optional_u64(reader: &mut PsdReader, present: bool) -> (result: ReadResult<Option<u64>>)
    ensures
        reader::reads(
            result,
            old(reader)@,
            final(reader)@,
            get_optional_u64(old(reader)@, present),
        ),
{
    if !present {
        return Ok(None);
    }
    let v: u64 = reader::read_uint64(reader)?;
    Ok(Some(v))
}

/// `mask` with its parameters: a byte that says which are there, and those.
pub open spec fn get_mask_params(r: ReaderState, mask: LayerMaskView) -> Parsed<LayerMaskView> {
    match reader::get_u8(r) {
        Err(e) => Err(e),
        Ok((params, r1)) => match get_optional_u8(r1, bit_set(params, 1)) {
            Err(e) => Err(e),
            Ok((user_mask_density, r2)) => match get_optional_u64(r2, bit_set(params, 2)) {
                Err(e) => Err(e),
                Ok((user_mask_feather, r3)) => match get_optional_u8(r3, bit_set(params, 4)) {
                    Err(e) => Err(e),
                    Ok((vector_mask_density, r4)) => match get_optional_u64(
                        r4,
                        bit_set(params, 8),
                    ) {
                        Err(e) => Err(e),
                        Ok((vector_mask_feather, r5)) => Ok(
                            (
                                LayerMaskView {
                                    user_mask_density,
                                    user_mask_feather,
                                    vector_mask_density,
                                    vector_mask_feather,
                                    ..mask
                                },
                                r5,
                            ),
                        ),
                    },
                },
            },
        },
    }
}

fn read_mask_params(reader: &mut PsdReader, mask: &mut LayerMaskData) -> (result: ReadResult<()>)
    ensures
        match get_mask_params(old(reader)@, old(mask).deep_view()) {
            Ok((m, state)) => result is Ok && final(mask).deep_view() == m && final(reader)@
                == state && final(reader)@.same_source(old(reader)@),
            Err(e) => result matches Err(err) && err@ == e && final(reader)@.same_source(
                old(reader)@,
            ),
        },
{
    let params: u8 = reader::read_uint8(reader)?;
    mask.user_mask_density = read_optional_u8(
        reader,
        has_bit(params, MaskParams::UserMaskDensity.code()),
    )?;
    mask.user_mask_feather = read_optional_u64(
        reader,
        has_bit(params, MaskParams::UserMaskFeather.code()),
    )?;
    mask.vector_mask_density = read_optional_u8(
        reader,
        has_bit(params, MaskParams::VectorMaskDensity.code()),
    )?;
    mask.vector_mask_feather = read_optional_u64(
        reader,
        has_bit(params, MaskParams::VectorMaskFeather.code()),
    )?;
    Ok(())
}

/// The real mask, where at least eighteen bytes of the section are left for it.
pub open spec fn get_optional_real_mask(
    r: ReaderState,
    section: Section,
    info: AdditionalInfoView,
) -> Parsed<AdditionalInfoView> {
    if section.rest(r) < 18 {
        Ok((info, r))
    } else {
        match get_real_mask(r) {
            Err(e) => Err(e),
            Ok((real_mask, r1)) => Ok(
                (AdditionalInfoView { real_mask: Some(real_mask), ..info }, r1),
            ),
        }
    }
}

/// `info` with the masks inside of a section.
pub open spec fn get_mask_body(
    r: ReaderState,
    section: Section,
    info: AdditionalInfoView,
) -> Parsed<AdditionalInfoView> {
    match get_box(r, "mask"@) {
        Err(e) => Err(e),
        Ok((b, r1)) => match reader::get_u8(r1) {
            Err(e) => Err(e),
            Ok((color, r2)) => match reader::get_u8(r2) {
                Err(e) => Err(e),
                Ok((flags, r3)) => match get_optional_real_mask(r3, section, info) {
                    Err(e) => Err(e),
                    Ok((info1, r4)) => if bit_set(flags, 16) {
                        match get_mask_params(r4, mask_from(b, color, flags)) {
                            Err(e) => Err(e),
                            Ok((mask, r5)) => Ok(
                                (AdditionalInfoView { mask: Some(mask), ..info1 }, r5),
                            ),
                        }
                    } else {
                        Ok(
                            (
                                AdditionalInfoView {
                                    mask: Some(mask_from(b, color, flags)),
                                    ..info1
                                },
                                r4,
                            ),
                        )
                    },
                },
            },
        },
    }
}

/// `info` with the masks of a layer.
pub open spec fn get_masks(r: ReaderState, info: AdditionalInfoView) -> Parsed<AdditionalInfoView> {
    match reader::open_section(r, true, false) {
        Err(e) => Err(e),
        Ok((None, r1)) => Ok((info, r1)),
        Ok((Some(section), r1)) => match get_mask_body(r1, section, info) {
            Err(e) => Err(e),
            Ok((masked, r2)) => match reader::close_section(
                r2.skipped(section.rest(r2)),
                section,
                1,
            ) {
                Err(e) => Err(e),
                Ok((_, r3)) => Ok((masked, r3)),
            },
        },
    }
}

fn read_mask_body(reader: &mut PsdReader, section: Section, info: &mut LayerAdditionalInfo) -> (result:
    ReadResult<()>)
    ensures
        match get_mask_body(old(reader)@, section, old(info).deep_view()) {
            Ok((masked, state)) => result is Ok && final(info).deep_view() == masked
                && final(reader)@ == state && final(reader)@.same_source(old(reader)@),
            Err(e) => result matches Err(err) && err@ == e && final(reader)@.same_source(
                old(reader)@,
            ),
        },
{
    let b: Bounds = read_box(reader, "mask")?;
    let color: u8 = reader::read_uint8(reader)?;
    let flags: u8 = reader::read_uint8(reader)?;
    let mut mask: LayerMaskData = make_mask(b, color, flags);
    if section.left(reader) >= 18 {
        let real_mask: LayerMaskData = read_real_mask(reader)?;
        info.real_mask = Some(real_mask);
    }
    if has_bit(flags, LayerMaskFlags::MaskHasParametersAppliedToIt.code()) {
        read_mask_params(reader, &mut mask)?;
    }
    info.mask = Some(mask);
    Ok(())
}

/// Reads the masks of a layer into `info`.
pub fn read_layer_mask_data(reader: &mut PsdReader, info: &mut LayerAdditionalInfo) -> (result:
    ReadResult<()>)
    ensures
        match get_masks(old(reader)@, old(info).deep_view()) {
            Ok((masked, state)) => result is Ok && final(info).deep_view() == masked
                && final(reader)@ == state && final(reader)@.same_source(old(reader)@),
            Err(e) => result matches Err(err) && err@ == e && final(reader)@.same_source(
                old(reader)@,
            ),
        },
{
    match reader::begin_section(reader, true, false)? {
        None => Ok(()),
        Some(section) => {
            read_mask_body(reader, section, info)?;
            let left: usize = section.left(reader);
            reader::skip_bytes(reader, left);
            reader::end_section(reader, section, 1)
        },
    }
}

/// A flag as the bit of the given weight.
pub open spec fn weight_if(set: bool, weight: u8) -> u8 {
    if set {
        weight
    } else {
        0
    }
}

fn weight_of(set: bool, weight: u8) -> (w: u8)
    ensures
        w == weight_if(set, weight),
{
    if set {
        weight
    } else {
        0
    }
}

/// Which parameters a mask has.
#[verifier::opaque]
pub open spec fn params_of(m: LayerMaskView) -> u8 {
    (weight_if(m.user_mask_density is Some, 1) + weight_if(m.user_mask_feather is Some, 2)
        + weight_if(m.vector_mask_density is Some, 4) + weight_if(
        m.vector_mask_feather is Some,
        8,
    )) as u8
}

/// The flags of a mask other than that it has parameters.
#[verifier::opaque]
pub open spec fn plain_flags(m: LayerMaskView) -> u8 {
    (weight_if(m.position_relative_to_layer == Some(true), 1) + weight_if(
        m.disabled == Some(true),
        2,
    ) + weight_if(m.from_vector_data == Some(true), 8)) as u8
}

/// All flags of a mask.
#[verifier::opaque]
pub open spec fn flags_of(m: LayerMaskView) -> u8 {
    (plain_flags(m) + weight_if(params_of(m) != 0, 16)) as u8
}

/// A byte that is there or not.
#[verifier::opaque]
pub open spec fn optional_u8_bytes(v: Option<u8>) -> Seq<u8> {
    match v {
        Some(v) => seq![v],
        None => Seq::empty(),
    }
}

/// A 64-bit number that is there or not.
#[verifier::opaque]
pub open spec fn optional_u64_bytes(v: Option<u64>) -> Seq<u8> {
    match v {
        Some(v) => bytes::u64_bytes(v),
        None => Seq::empty(),
    }
}

/// The parameters of a mask, where it has any.
pub open spec fn params_bytes(m: LayerMaskView) -> Seq<u8> {
    if params_of(m) == 0 {
        Seq::empty()
    } else {
        seq![params_of(m)] + optional_u8_bytes(m.user_mask_density) + optional_u64_bytes(
            m.user_mask_feather,
        ) + optional_u8_bytes(m.vector_mask_density) + optional_u64_bytes(m.vector_mask_feather)
    }
}

/// A mask, or one about which nothing is said.
pub open spec fn mask_or_empty(m: Option<LayerMaskView>) -> LayerMaskView {
    match m {
        Some(m) => m,
        None => psd::empty_mask(),
    }
}

pub open spec fn color_or_zero(m: LayerMaskView) -> u8 {
    match m.default_color {
        Some(color) => color,
        None => 0,
    }
}

pub open spec fn bounds_or_zero(b: Option<Bounds>) -> Bounds {
    match b {
        Some(b) => b,
        None => Bounds { top: 0, left: 0, right: 0, bottom: 0 },
    }
}

/// The real mask, where there is one.
pub open spec fn real_mask_bytes(other: Option<LayerMaskView>, bounds: Option<Bounds>) -> Seq<u8> {
    match other {
        None => Seq::empty(),
        Some(m) => seq![plain_flags(m), color_or_zero(m)] + bounds_bytes(bounds_or_zero(bounds)),
    }
}

/// The rectangle, the colour and the flags of a mask.
pub open spec fn mask_head_bytes(m: LayerMaskView, bounds: Bounds) -> Seq<u8> {
    bounds_bytes(bounds) + seq![color_or_zero(m), flags_of(m)]
}

/// The masks of a layer, where there are any, with their rectangles.
pub open spec fn mask_body(
    info: AdditionalInfoView,
    bounds: Option<Bounds>,
    real_bounds: Option<Bounds>,
) -> Seq<u8> {
    if info.mask is None && info.real_mask is None {
        Seq::empty()
    } else {
        let m = mask_or_empty(info.mask);
        mask_head_bytes(m, bounds_or_zero(bounds)) + real_mask_bytes(info.real_mask, real_bounds)
            + params_bytes(m) + bytes::zeros(2)
    }
}

fn mask_flag_bits(m: &LayerMaskData) -> (flags: u8)
    ensures
        flags == plain_flags(m.deep_view()),
        flags < 16,
{
    reveal(plain_flags);
    let position: bool = matches!(m.position_relative_to_layer, Some(true));
    let disabled: bool = matches!(m.disabled, Some(true));
    let vector: bool = matches!(m.from_vector_data, Some(true));
    weight_of(position, LayerMaskFlags::PositionRelativeToLayer.code()) + weight_of(
        disabled,
        LayerMaskFlags::LayerMaskDisabled.code(),
    ) + weight_of(vector, LayerMaskFlags::LayerMaskFromRenderingOtherData.code())
}

fn mask_param_bits(m: &LayerMaskData) -> (params: u8)
    ensures
        params == params_of(m.deep_view()),
{
    reveal(params_of);
    weight_of(m.user_mask_density.is_some(), MaskParams::UserMaskDensity.code()) + weight_of(
        m.user_mask_feather.is_some(),
        MaskParams::UserMaskFeather.code(),
    ) + weight_of(m.vector_mask_density.is_some(), MaskParams::VectorMaskDensity.code())
        + weight_of(m.vector_mask_feather.is_some(), MaskParams::VectorMaskFeather.code())
}

fn write_optional_u8(writer: &mut PsdWriter, v: Option<u8>)
    requires
        old(writer).wf(),
    ensures
        writer::wrote(*old(writer), *final(writer), optional_u8_bytes(v)),
{
    reveal(optional_u8_bytes);
    match v {
        Some(v) => writer::write_uint8(writer, v),
        None => {
            assert(writer.data() =~= old(writer).data() + optional_u8_bytes(v));
        },
    }
}

fn write_optional_u64(writer: &mut PsdWriter, v: Option<u64>)
    requires
        old(writer).wf(),
    ensures
        writer::wrote(*old(writer), *final(writer), optional_u64_bytes(v)),
{
    reveal(optional_u64_bytes);
    match v {
        Some(v) => writer::write_uint64(writer, v),
        None => {
            assert(writer.data() =~= old(writer).data() + optional_u64_bytes(v));
        },
    }
}

fn write_mask_params(writer: &mut PsdWriter, m: &LayerMaskData)
    requires
        old(writer).wf(),
    ensures
        writer::wrote(*old(writer), *final(writer), params_bytes(m.deep_view())),
{
    let params: u8 = mask_param_bits(m);
    if params != 0 {
        writer::write_uint8(writer, params);
        write_optional_u8(writer, m.user_mask_density);
        write_optional_u64(writer, m.user_mask_feather);
        write_optional_u8(writer, m.vector_mask_density);
        write_optional_u64(writer, m.vector_mask_feather);
    }
    assert(writer.data() =~= old(writer).data() + params_bytes(m.deep_view()));
}

fn bounds_of(b: Option<Bounds>) -> (bounds: Bounds)
    ensures
        bounds == bounds_or_zero(b),
{
    match b {
        Some(b) => b,
        None => Bounds::default(),
    }
}

fn write_real_mask(writer: &mut PsdWriter, other: &Option<LayerMaskData>, bounds: Option<Bounds>)
    requires
        old(writer).wf(),
    ensures
        writer::wrote(*old(writer), *final(writer), real_mask_bytes(other.deep_view(), bounds)),
{
    match other {
        None => {
            assert(writer.data() =~= old(writer).data() + real_mask_bytes(
                other.deep_view(),
                bounds,
            ));
        },
        Some(m) => {
            writer::write_uint8(writer, mask_flag_bits(m));
            writer::write_uint8(
                writer,
                match m.default_color {
                    Some(color) => color,
                    None => 0,
                },
            );
            write_bounds(writer, bounds_of(bounds));
            assert(writer.data() =~= old(writer).data() + real_mask_bytes(
                other.deep_view(),
                bounds,
            ));
        },
    }
}

fn write_mask_head(writer: &mut PsdWriter, m: &LayerMaskData, bounds: Bounds)
    requires
        old(writer).wf(),
    ensures
        writer::wrote(*old(writer), *final(writer), mask_head_bytes(m.deep_view(), bounds)),
{
    reveal(flags_of);
    write_bounds(writer, bounds);
    writer::write_uint8(
        writer,
        match m.default_color {
            Some(color) => color,
            None => 0,
        },
    );
    let params: u8 = mask_param_bits(m);
    writer::write_uint8(
        writer,
        mask_flag_bits(m) + weight_of(
            params != 0,
            LayerMaskFlags::MaskHasParametersAppliedToIt.code(),
        ),
    );
    assert(writer.data() =~= old(writer).data() + mask_head_bytes(m.deep_view(), bounds));
}

/// Writes the masks of a layer with their rectangles.
pub fn write_layer_mask_data(
    writer: &mut PsdWriter,
    info: &LayerAdditionalInfo,
    bounds: Option<Bounds>,
    real_bounds: Option<Bounds>,
)
    requires
        old(writer).wf(),
    ensures
        writer::wrote(
            *old(writer),
            *final(writer),
            writer::section_bytes(mask_body(info.deep_view(), bounds, real_bounds), 1, false, false),
        ),
{
    let ghost base = writer.data();
    let ghost view = info.deep_view();
    let start: usize = writer::begin_section(writer, false);
    let ghost inside = writer.data();
    if info.mask.is_some() || info.real_mask.is_some() {
        let empty: LayerMaskData = LayerMaskData::default();
        let m: &LayerMaskData = match &info.mask {
            Some(m) => m,
            None => &empty,
        };
        write_mask_head(writer, m, bounds_of(bounds));
        write_real_mask(writer, &info.real_mask, real_bounds);
        write_mask_params(writer, m);
        writer::write_zeros(writer, 2);
    }
    assert(writer.data() =~= inside + mask_body(view, bounds, real_bounds));
    writer::end_section(writer, start, 1, false);
    proof {
        writer::lemma_section_written(
            base,
            mask_body(view, bounds, real_bounds),
            1,
            false,
            false,
        );
    }
}

/// The ranges of the channels, from the cursor to the end of their section.
pub open spec fn get_range_list(r: ReaderState, end: int, ranges: Seq<BlendingRange>) -> Parsed<
    Seq<BlendingRange>,
>
    decreases
            (if end < r.offset {
                0
            } else {
                end - r.offset
            }),
{
    if end <= r.offset {
        Ok((ranges, r))
    } else {
        match reader::get_u32(r) {
            Err(e) => Err(e),
            Ok((source_range, r1)) => match reader::get_u32(r1) {
                Err(e) => Err(e),
                Ok((dest_range, r2)) => get_range_list(
                    r2,
                    end,
                    ranges.push(BlendingRange { source_range, dest_range }),
                ),
            },
        }
    }
}

/// The blending ranges inside of a section.
pub open spec fn get_ranges_body(r: ReaderState, section: Section) -> Parsed<BlendingRangesView> {
    match reader::get_u32(r) {
        Err(e) => Err(e),
        Ok((composite_gray_blend_source, r1)) => match reader::get_u32(r1) {
            Err(e) => Err(e),
            Ok((composite_graph_blend_destination_range, r2)) => match get_range_list(
                r2,
                section.end as int,
                Seq::empty(),
            ) {
                Err(e) => Err(e),
                Ok((ranges, r3)) => Ok(
                    (
                        BlendingRangesView {
                            composite_gray_blend_source,
                            composite_graph_blend_destination_range,
                            ranges,
                        },
                        r3,
                    ),
                ),
            },
        },
    }
}

/// The blending ranges of a layer, where there are any.
pub open spec fn get_ranges(r: ReaderState) -> Parsed<Option<BlendingRangesView>> {
    match reader::open_section(r, true, false) {
        Err(e) => Err(e),
        Ok((None, r1)) => Ok((None, r1)),
        Ok((Some(section), r1)) => match get_ranges_body(r1, section) {
            Err(e) => Err(e),
            Ok((ranges, r2)) => match reader::close_section(r2, section, 1) {
                Err(e) => Err(e),
                Ok((_, r3)) => Ok((Some(ranges), r3)),
            },
        },
    }
}

fn read_ranges_body(reader: &mut PsdReader, section: Section) -> (result: ReadResult<BlendingRanges>)
    ensures
        reader::reads(result, old(reader)@, final(reader)@, get_ranges_body(old(reader)@, section)),
{
    let composite_gray_blend_source: u32 = reader::read_uint32(reader)?;
    let composite_graph_blend_destination_range: u32 = reader::read_uint32(reader)?;
    let mut ranges: Vec<BlendingRange> = Vec::new();
    let ghost start = reader@;
    assert(ranges@ =~= Seq::<BlendingRange>::empty());
    while section.left(reader) > 0
        invariant
            reader@.same_source(old(reader)@),
            get_range_list(reader@, section.end as int, ranges@) == get_range_list(
                start,
                section.end as int,
                Seq::empty(),
            ),
            get_ranges_body(old(reader)@, section) == (match get_range_list(
                start,
                section.end as int,
                Seq::empty(),
            ) {
                Err(e) => Err::<(BlendingRangesView, ReaderState), ErrorView>(e),
                Ok((ranges, r3)) => Ok(
                    (
                        BlendingRangesView {
                            composite_gray_blend_source,
                            composite_graph_blend_destination_range,
                            ranges,
                        },
                        r3,
                    ),
                ),
            }),
        decreases section.rest(reader@),
    {
        let source_range: u32 = reader::read_uint32(reader)?;
        let dest_range: u32 = reader::read_uint32(reader)?;
        ranges.push(BlendingRange { source_range, dest_range });
    }
    Ok(
        BlendingRanges {
            composite_gray_blend_source,
            composite_graph_blend_destination_range,
            ranges,
        },
    )
}

/// Reads the blending ranges of a layer.
pub fn read_layer_blending_ranges(reader: &mut PsdReader) -> (result: ReadResult<
    Option<BlendingRanges>,
>)
    ensures
        reader::reads(result, old(reader)@, final(reader)@, get_ranges(old(reader)@)),
{
    match reader::begin_section(reader, true, false)? {
        None => Ok(None),
        Some(section) => {
            let ranges: BlendingRanges = read_ranges_body(reader, section)?;
            reader::end_section(reader, section, 1)?;
            Ok(Some(ranges))
        },
    }
}

/// The bytes of the ranges of one channel.
pub open spec fn range_bytes(range: BlendingRange) -> Seq<u8> {
    bytes::u32_bytes(range.source_range) + bytes::u32_bytes(range.dest_range)
}

/// The bytes of the ranges of each channel.
pub open spec fn range_pieces(ranges: Seq<BlendingRange>) -> Seq<Seq<u8>> {
    Seq::new(ranges.len(), |i: int| range_bytes(ranges[i]))
}

/// The bytes of blending ranges, where there are any.
pub open spec fn ranges_body(ranges: Option<BlendingRangesView>) -> Seq<u8> {
    match ranges {
        None => Seq::empty(),
        Some(ranges) => bytes::u32_bytes(ranges.composite_gray_blend_source) + bytes::u32_bytes(
            ranges.composite_graph_blend_destination_range,
        ) + bytes::concat(range_pieces(ranges.ranges)),
    }
}

/// Writes the blending ranges of a layer.
pub fn write_layer_blending_ranges(writer: &mut PsdWriter, ranges: &Option<BlendingRanges>)
    requires
        old(writer).wf(),
    ensures
        writer::wrote(
            *old(writer),
            *final(writer),
            writer::section_bytes(ranges_body(ranges.deep_view()), 1, false, false),
        ),
{
    let ghost base = writer.data();
    let start: usize = writer::begin_section(writer, false);
    let ghost inside = writer.data();
    match ranges {
        None => {},
        Some(ranges) => {
            writer::write_uint32(writer, ranges.composite_gray_blend_source);
            writer::write_uint32(writer, ranges.composite_graph_blend_destination_range);
            let ghost head = writer.data();
            let ghost temp = writer.temp_buffer;
            let ghost view = ranges.ranges@;
            let mut i: usize = 0;
            assert(range_pieces(view).take(0) =~= Seq::<Seq<u8>>::empty());
            assert(head + bytes::concat(range_pieces(view).take(0)) =~= head);
            while i < ranges.ranges.len()
                invariant
                    i <= ranges.ranges@.len(),
                    view == ranges.ranges@,
                    writer.wf(),
                    writer.temp_buffer == temp,
                    writer::grew(*old(writer), *writer),
                    writer.offset == writer.data().len(),
                    writer.data() == head + bytes::concat(range_pieces(view).take(i as int)),
                decreases ranges.ranges@.len() - i,
            {
                writer::write_uint32(writer, ranges.ranges[i].source_range);
                writer::write_uint32(writer, ranges.ranges[i].dest_range);
                proof {
                    bytes::lemma_concat_take(range_pieces(view), i as int);
                    assert(writer.data() =~= head + bytes::concat(
                        range_pieces(view).take(i + 1),
                    ));
                }
                i += 1;
            }
            assert(range_pieces(view).take(i as int) =~= range_pieces(view));
        },
    }
    assert(writer.data() =~= inside + ranges_body(ranges.deep_view()));
    writer::end_section(writer, start, 1, false);
    proof {
        writer::lemma_section_written(base, ranges_body(ranges.deep_view()), 1, false, false);
    }
}

/// The global layer mask inside of a section.
pub open spec fn get_global_mask_body(r: ReaderState) -> Parsed<GlobalLayerMaskInfo> {
    match reader::get_u16(r) {
        Err(e) => Err(e),
        Ok((overlay_color_space, r1)) => match reader::get_u16(r1) {
            Err(e) => Err(e),
            Ok((color_space1, r2)) => match reader::get_u16(r2) {
                Err(e) => Err(e),
                Ok((color_space2, r3)) => match reader::get_u16(r3) {
                    Err(e) => Err(e),
                    Ok((color_space3, r4)) => match reader::get_u16(r4) {
                        Err(e) => Err(e),
                        Ok((color_space4, r5)) => match reader::get_u16(r5) {
                            Err(e) => Err(e),
                            Ok((opacity, r6)) => match reader::get_u8(r6) {
                                Err(e) => Err(e),
                                Ok((kind, r7)) => Ok(
                                    (
                                        GlobalLayerMaskInfo {
                                            overlay_color_space,
                                            color_space1,
                                            color_space2,
                                            color_space3,
                                            color_space4,
                                            opacity,
                                            kind,
                                        },
                                        r7,
                                    ),
                                ),
                            },
                        },
                    },
                },
            },
        },
    }
}

/// The global layer mask, where there is one.
pub open spec fn get_global_mask(r: ReaderState) -> Parsed<Option<GlobalLayerMaskInfo>> {
    match reader::open_section(r, true, false) {
        Err(e) => Err(e),
        Ok((None, r1)) => Ok((None, r1)),
        Ok((Some(section), r1)) => match get_global_mask_body(r1) {
            Err(e) => Err(e),
            Ok((info, r2)) => match reader::close_section(
                r2.skipped(section.rest(r2)),
                section,
                1,
            ) {
                Err(e) => Err(e),
                Ok((_, r3)) => Ok((Some(info), r3)),
            },
        },
    }
}

/// Reads the global layer mask.
pub fn read_global_layer_mask_info(reader: &mut PsdReader) -> (result: ReadResult<
    Option<GlobalLayerMaskInfo>,
>)
    ensures
        reader::reads(result, old(reader)@, final(reader)@, get_global_mask(old(reader)@)),
{
    match reader::begin_section(reader, true, false)? {
        None => Ok(None),
        Some(section) => {
            let overlay_color_space: u16 = reader::read_uint16(reader)?;
            let color_space1: u16 = reader::read_uint16(reader)?;
            let color_space2: u16 = reader::read_uint16(reader)?;
            let color_space3: u16 = reader::read_uint16(reader)?;
            let color_space4: u16 = reader::read_uint16(reader)?;
            let opacity: u16 = reader::read_uint16(reader)?;
            let kind: u8 = reader::read_uint8(reader)?;
            let left: usize = section.left(reader);
            reader::skip_bytes(reader, left);
            reader::end_section(reader, section, 1)?;
            Ok(
                Some(
                    GlobalLayerMaskInfo {
                        overlay_color_space,
                        color_space1,
                        color_space2,
                        color_space3,
                        color_space4,
                        opacity,
                        kind,
                    },
                ),
            )
        },
    }
}

/// The bytes of the global layer mask, where there is one.
pub open spec fn global_mask_body(info: Option<GlobalLayerMaskInfo>) -> Seq<u8> {
    match info {
        None => Seq::empty(),
        Some(info) => bytes::u16_bytes(info.overlay_color_space) + bytes::u16_bytes(
            info.color_space1,
        ) + bytes::u16_bytes(info.color_space2) + bytes::u16_bytes(info.color_space3)
            + bytes::u16_bytes(info.color_space4) + bytes::u16_bytes(info.opacity)
            + seq![info.kind] + bytes::zeros(3),
    }
}

/// Writes the global layer mask.
pub fn write_global_layer_mask_info(writer: &mut PsdWriter, info: Option<GlobalLayerMaskInfo>)
    requires
        old(writer).wf(),
    ensures
        writer::wrote(
            *old(writer),
            *final(writer),
            writer::section_bytes(global_mask_body(info), 1, false, false),
        ),
{
    let ghost base = writer.data();
    let start: usize = writer::begin_section(writer, false);
    let ghost inside = writer.data();
    match info {
        None => {},
        Some(info) => {
            writer::write_uint16(writer, info.overlay_color_space);
            writer::write_uint16(writer, info.color_space1);
            writer::write_uint16(writer, info.color_space2);
            writer::write_uint16(writer, info.color_space3);
            writer::write_uint16(writer, info.color_space4);
            writer::write_uint16(writer, info.opacity);
            writer::write_uint8(writer, info.kind);
            writer::write_zeros(writer, 3);
        },
    }
    assert(writer.data() =~= inside + global_mask_body(info));
    writer::end_section(writer, start, 1, false);
    proof {
        writer::lemma_section_written(base, global_mask_body(info), 1, false, false);
    }
}

/// A mask as it comes back: everything is said, and its pixels are not there yet.
pub open spec fn stored_mask(m: LayerMaskView, b: Bounds) -> LayerMaskView {
    LayerMaskView {
        top: Some(b.top),
        left: Some(b.left),
        bottom: Some(b.bottom),
        right: Some(b.right),
        default_color: Some(color_or_zero(m)),
        disabled: Some(m.disabled == Some(true)),
        position_relative_to_layer: Some(m.position_relative_to_layer == Some(true)),
        from_vector_data: Some(m.from_vector_data == Some(true)),
        canvas: None,
        image_data: None,
        ..m
    }
}

/// A real mask as it comes back: it has no parameters.
pub open spec fn stored_real_mask(m: LayerMaskView, b: Bounds) -> LayerMaskView {
    LayerMaskView {
        user_mask_density: None,
        user_mask_feather: None,
        vector_mask_density: None,
        vector_mask_feather: None,
        ..stored_mask(m, b)
    }
}

/// `start` with the masks of `info` as they come back. A real mask never comes
/// back without a mask.
pub open spec fn with_stored_masks(
    start: AdditionalInfoView,
    info: AdditionalInfoView,
    bounds: Option<Bounds>,
    real_bounds: Option<Bounds>,
) -> AdditionalInfoView {
    if info.mask is None && info.real_mask is None {
        start
    } else {
        AdditionalInfoView {
            mask: Some(stored_mask(mask_or_empty(info.mask), bounds_or_zero(bounds))),
            real_mask: match info.real_mask {
                Some(m) => Some(stored_real_mask(m, bounds_or_zero(real_bounds))),
                None => start.real_mask,
            },
            ..start
        }
    }
}

/// The parameters of the mask cannot be taken for a real mask: without a real
/// mask it has at most one feather.
pub open spec fn masks_distinct(info: AdditionalInfoView) -> bool {
    info.real_mask is Some || !(info.mask matches Some(m) && m.user_mask_feather is Some
        && m.vector_mask_feather is Some)
}

proof fn lemma_mask_bits(m: LayerMaskView)
    ensures
        bit_set(flags_of(m), 1) == (m.position_relative_to_layer == Some(true)),
        bit_set(flags_of(m), 2) == (m.disabled == Some(true)),
        bit_set(flags_of(m), 8) == (m.from_vector_data == Some(true)),
        bit_set(flags_of(m), 16) == (params_of(m) != 0),
        bit_set(plain_flags(m), 1) == (m.position_relative_to_layer == Some(true)),
        bit_set(plain_flags(m), 2) == (m.disabled == Some(true)),
        bit_set(plain_flags(m), 8) == (m.from_vector_data == Some(true)),
        bit_set(params_of(m), 1) == (m.user_mask_density is Some),
        bit_set(params_of(m), 2) == (m.user_mask_feather is Some),
        bit_set(params_of(m), 4) == (m.vector_mask_density is Some),
        bit_set(params_of(m), 8) == (m.vector_mask_feather is Some),
        params_of(m) == 0 <==> m.user_mask_density is None && m.user_mask_feather is None
            && m.vector_mask_density is None && m.vector_mask_feather is None,
{
    reveal(bit_set);
    reveal(params_of);
    reveal(plain_flags);
    reveal(flags_of);
}

proof fn lemma_optional_u8_reads_back(r: ReaderState, v: Option<u8>)
    requires
        bytes::holds_at(r.buffer, r.offset, optional_u8_bytes(v)),
    ensures
        get_optional_u8(r, v is Some) == Ok::<(Option<u8>, ReaderState), ErrorView>(
            (v, r.at(r.offset + optional_u8_bytes(v).len())),
        ),
{
    reveal(optional_u8_bytes);
    match v {
        Some(v) => roundtrip::law_uint8_round_trip(r, v),
        None => {},
    }
}

proof fn lemma_optional_u64_reads_back(r: ReaderState, v: Option<u64>)
    requires
        bytes::holds_at(r.buffer, r.offset, optional_u64_bytes(v)),
    ensures
        get_optional_u64(r, v is Some) == Ok::<(Option<u64>, ReaderState), ErrorView>(
            (v, r.at(r.offset + optional_u64_bytes(v).len())),
        ),
{
    reveal(optional_u64_bytes);
    match v {
        Some(v) => roundtrip::law_uint64_round_trip(r, v),
        None => {},
    }
}

proof fn lemma_params_length(m: LayerMaskView)
    ensures
        params_bytes(m).len() <= 19,
        !(m.user_mask_feather is Some && m.vector_mask_feather is Some) ==> params_bytes(m).len()
            < 16,
{
    reveal(optional_u8_bytes);
    reveal(optional_u64_bytes);
}

proof fn lemma_params_read_back(r: ReaderState, m: LayerMaskView, start: LayerMaskView)
    requires
        params_of(m) != 0,
        bytes::holds_at(r.buffer, r.offset, params_bytes(m)),
    ensures
        get_mask_params(r, start) == Ok::<(LayerMaskView, ReaderState), ErrorView>(
            (
                LayerMaskView {
                    user_mask_density: m.user_mask_density,
                    user_mask_feather: m.user_mask_feather,
                    vector_mask_density: m.vector_mask_density,
                    vector_mask_feather: m.vector_mask_feather,
                    ..start
                },
                r.at(r.offset + params_bytes(m).len()),
            ),
        ),
{
    lemma_mask_bits(m);
    let a = seq![params_of(m)];
    let b = optional_u8_bytes(m.user_mask_density);
    let c = optional_u64_bytes(m.user_mask_feather);
    let d = optional_u8_bytes(m.vector_mask_density);
    let e = optional_u64_bytes(m.vector_mask_feather);
    bytes::lemma_holds_at_split(r.buffer, r.offset, a + b + c + d, e);
    bytes::lemma_holds_at_split(r.buffer, r.offset, a + b + c, d);
    bytes::lemma_holds_at_split(r.buffer, r.offset, a + b, c);
    bytes::lemma_holds_at_split(r.buffer, r.offset, a, b);
    roundtrip::law_uint8_round_trip(r, params_of(m));
    let r1 = r.at(r.offset + 1);
    lemma_optional_u8_reads_back(r1, m.user_mask_density);
    let r2 = r.at(r1.offset + b.len());
    lemma_optional_u64_reads_back(r2, m.user_mask_feather);
    let r3 = r.at(r2.offset + c.len());
    lemma_optional_u8_reads_back(r3, m.vector_mask_density);
    let r4 = r.at(r3.offset + d.len());
    lemma_optional_u64_reads_back(r4, m.vector_mask_feather);
}

proof fn lemma_real_mask_reads_back(r: ReaderState, m: LayerMaskView, b: Bounds)
    requires
        bytes::holds_at(r.buffer, r.offset, real_mask_bytes(Some(m), Some(b))),
        valid_box(b, r.large),
    ensures
        get_real_mask(r) == Ok::<(LayerMaskView, ReaderState), ErrorView>(
            (stored_real_mask(m, b), r.at(r.offset + 18)),
        ),
        real_mask_bytes(Some(m), Some(b)).len() == 18,
{
    lemma_mask_bits(m);
    let flags = seq![plain_flags(m)];
    let color = seq![color_or_zero(m)];
    let rest = bounds_bytes(b);
    assert(seq![plain_flags(m), color_or_zero(m)] =~= flags + color);
    bytes::lemma_holds_at_split(r.buffer, r.offset, flags + color, rest);
    bytes::lemma_holds_at_split(r.buffer, r.offset, flags, color);
    roundtrip::law_uint8_round_trip(r, plain_flags(m));
    roundtrip::law_uint8_round_trip(r.at(r.offset + 1), color_or_zero(m));
    law_box_round_trip(r.at(r.offset + 2), b, "real mask"@);
}

proof fn lemma_mask_head_reads_back(r: ReaderState, m: LayerMaskView, b: Bounds)
    requires
        bytes::holds_at(r.buffer, r.offset, mask_head_bytes(m, b)),
        valid_box(b, r.large),
    ensures
        get_box(r, "mask"@) == Ok::<(Bounds, ReaderState), ErrorView>((b, r.at(r.offset + 16))),
        reader::get_u8(r.at(r.offset + 16)) == Ok::<(u8, ReaderState), ErrorView>(
            (color_or_zero(m), r.at(r.offset + 17)),
        ),
        reader::get_u8(r.at(r.offset + 17)) == Ok::<(u8, ReaderState), ErrorView>(
            (flags_of(m), r.at(r.offset + 18)),
        ),
        mask_head_bytes(m, b).len() == 18,
{
    let head = bounds_bytes(b);
    let bits = seq![color_or_zero(m), flags_of(m)];
    let color = seq![color_or_zero(m)];
    let flags = seq![flags_of(m)];
    bytes::lemma_holds_at_split(r.buffer, r.offset, head, bits);
    assert(bits =~= color + flags);
    bytes::lemma_holds_at_split(r.buffer, r.offset + 16, color, flags);
    law_box_round_trip(r, b, "mask"@);
    roundtrip::law_uint8_round_trip(r.at(r.offset + 16), color_or_zero(m));
    roundtrip::law_uint8_round_trip(r.at(r.offset + 17), flags_of(m));
}

proof fn lemma_mask_body_reads_back(
    r: ReaderState,
    section: Section,
    start: AdditionalInfoView,
    info: AdditionalInfoView,
    bounds: Option<Bounds>,
    real_bounds: Option<Bounds>,
)
    requires
        info.mask is Some || info.real_mask is Some,
        masks_distinct(info),
        valid_box(bounds_or_zero(bounds), r.large),
        valid_box(bounds_or_zero(real_bounds), r.large),
        bytes::holds_at(r.buffer, r.offset, mask_body(info, bounds, real_bounds)),
        section.end == r.offset + mask_body(info, bounds, real_bounds).len(),
    ensures
        get_mask_body(r, section, start) == Ok::<(AdditionalInfoView, ReaderState), ErrorView>(
            (
                with_stored_masks(start, info, bounds, real_bounds),
                r.at(section.end - 2),
            ),
        ),
{
    let m = mask_or_empty(info.mask);
    let b = bounds_or_zero(bounds);
    let c = bounds_or_zero(real_bounds);
    let head = mask_head_bytes(m, b);
    let other = real_mask_bytes(info.real_mask, real_bounds);
    let params = params_bytes(m);
    lemma_mask_bits(m);
    lemma_params_length(m);
    bytes::lemma_holds_at_split(r.buffer, r.offset, head + other + params, bytes::zeros(2));
    bytes::lemma_holds_at_split(r.buffer, r.offset, head + other, params);
    bytes::lemma_holds_at_split(r.buffer, r.offset, head, other);
    lemma_mask_head_reads_back(r, m, b);
    let r3 = r.at(r.offset + 18);
    let r4 = r.at(r.offset + 18 + other.len());
    let masked = match info.real_mask {
        Some(x) => AdditionalInfoView { real_mask: Some(stored_real_mask(x, c)), ..start },
        None => start,
    };
    assert(get_optional_real_mask(r3, section, start) == Ok::<
        (AdditionalInfoView, ReaderState),
        ErrorView,
    >((masked, r4))) by {
        match info.real_mask {
            Some(x) => {
                assert(real_mask_bytes(Some(x), Some(c)) == other);
                lemma_real_mask_reads_back(r3, x, c);
            },
            None => {},
        }
    }
    let plain = mask_from(b, color_or_zero(m), flags_of(m));
    if params_of(m) != 0 {
        lemma_params_read_back(r4, m, plain);
    }
    assert(r.at(r4.offset + params.len()) == r.at(section.end - 2));
}

/// The masks of a layer are read where they were written.
pub proof fn law_masks_round_trip(
    r: ReaderState,
    start: AdditionalInfoView,
    info: AdditionalInfoView,
    bounds: Option<Bounds>,
    real_bounds: Option<Bounds>,
)
    requires
        r.buffer.len() <= usize::MAX,
        masks_distinct(info),
        valid_box(bounds_or_zero(bounds), r.large),
        valid_box(bounds_or_zero(real_bounds), r.large),
        bytes::holds_at(
            r.buffer,
            r.offset,
            writer::section_bytes(mask_body(info, bounds, real_bounds), 1, false, false),
        ),
    ensures
        get_masks(r, start) == Ok::<(AdditionalInfoView, ReaderState), ErrorView>(
            (
                with_stored_masks(start, info, bounds, real_bounds),
                r.at(
                    r.offset + writer::section_bytes(
                        mask_body(info, bounds, real_bounds),
                        1,
                        false,
                        false,
                    ).len(),
                ),
            ),
        ),
{
    let body = mask_body(info, bounds, real_bounds);
    lemma_params_length(mask_or_empty(info.mask));
    assert(body.len() <= 100);
    roundtrip::law_section_round_trip(r, body, 1, false, false, true);
    if info.mask is Some || info.real_mask is Some {
        let r0 = r.at(r.offset + 4);
        let section = Section {
            length: body.len() as usize,
            end: (r0.offset + body.len()) as usize,
        };
        lemma_mask_body_reads_back(r0, section, start, info, bounds, real_bounds);
    }
}

proof fn lemma_range_list_reads_back(
    r: ReaderState,
    base: int,
    ranges: Seq<BlendingRange>,
    k: int,
)
    requires
        bytes::holds_at(r.buffer, base, bytes::concat(range_pieces(ranges))),
        0 <= k <= ranges.len(),
        r.offset == base + 8 * k,
    ensures
        get_range_list(r, base + 8 * ranges.len() as int, ranges.take(k)) == Ok::<
            (Seq<BlendingRange>, ReaderState),
            ErrorView,
        >((ranges, r.at(base + 8 * ranges.len()))),
    decreases ranges.len() - k,
{
    let pieces = range_pieces(ranges);
    if k == ranges.len() {
        assert(ranges.take(k) =~= ranges);
    } else {
        let range = ranges[k];
        lemma_range_lengths(ranges, k);
        bytes::lemma_holds_at_piece(r.buffer, base, pieces, k);
        bytes::lemma_holds_at_split(
            r.buffer,
            r.offset,
            bytes::u32_bytes(range.source_range),
            bytes::u32_bytes(range.dest_range),
        );
        roundtrip::law_uint32_round_trip(r, range.source_range);
        roundtrip::law_uint32_round_trip(r.at(r.offset + 4), range.dest_range);
        assert(ranges.take(k + 1) =~= ranges.take(k).push(range));
        lemma_range_list_reads_back(r.at(r.offset + 8), base, ranges, k + 1);
    }
}

proof fn lemma_range_lengths(ranges: Seq<BlendingRange>, k: int)
    requires
        0 <= k <= ranges.len(),
    ensures
        bytes::concat(range_pieces(ranges).take(k)).len() == 8 * k,
    decreases k,
{
    if k > 0 {
        lemma_range_lengths(ranges, k - 1);
        bytes::lemma_concat_take(range_pieces(ranges), k - 1);
    } else {
        assert(range_pieces(ranges).take(0) =~= Seq::<Seq<u8>>::empty());
    }
}

/// The blending ranges of a layer are read where they were written.
pub proof fn law_ranges_round_trip(r: ReaderState, ranges: Option<BlendingRangesView>)
    requires
        r.buffer.len() <= usize::MAX,
        ranges_body(ranges).len() < 0x1_0000_0000,
        bytes::holds_at(
            r.buffer,
            r.offset,
            writer::section_bytes(ranges_body(ranges), 1, false, false),
        ),
    ensures
        get_ranges(r) == Ok::<(Option<BlendingRangesView>, ReaderState), ErrorView>(
            (
                ranges,
                r.at(
                    r.offset + writer::section_bytes(ranges_body(ranges), 1, false, false).len(),
                ),
            ),
        ),
{
    let body = ranges_body(ranges);
    roundtrip::law_section_round_trip(r, body, 1, false, false, true);
    match ranges {
        None => {},
        Some(x) => {
            let r0 = r.at(r.offset + 4);
            let a = bytes::u32_bytes(x.composite_gray_blend_source);
            let b = bytes::u32_bytes(x.composite_graph_blend_destination_range);
            let list = bytes::concat(range_pieces(x.ranges));
            bytes::lemma_holds_at_split(r.buffer, r0.offset, a + b, list);
            bytes::lemma_holds_at_split(r.buffer, r0.offset, a, b);
            roundtrip::law_uint32_round_trip(r0, x.composite_gray_blend_source);
            roundtrip::law_uint32_round_trip(
                r0.at(r0.offset + 4),
                x.composite_graph_blend_destination_range,
            );
            let r2 = r0.at(r0.offset + 8);
            lemma_range_lengths(x.ranges, x.ranges.len() as int);
            assert(range_pieces(x.ranges).take(x.ranges.len() as int) =~= range_pieces(x.ranges));
            assert(x.ranges.take(0) =~= Seq::<BlendingRange>::empty());
            lemma_range_list_reads_back(r2, r2.offset, x.ranges, 0);
        },
    }
}

/// The global layer mask is read where it was written.
pub proof fn law_global_mask_round_trip(r: ReaderState, info: Option<GlobalLayerMaskInfo>)
    requires
        r.buffer.len() <= usize::MAX,
        bytes::holds_at(
            r.buffer,
            r.offset,
            writer::section_bytes(global_mask_body(info), 1, false, false),
        ),
    ensures
        get_global_mask(r) == Ok::<(Option<GlobalLayerMaskInfo>, ReaderState), ErrorView>(
            (
                info,
                r.at(
                    r.offset + writer::section_bytes(
                        global_mask_body(info),
                        1,
                        false,
                        false,
                    ).len(),
                ),
            ),
        ),
{
    let body = global_mask_body(info);
    assert(body.len() <= 16);
    roundtrip::law_section_round_trip(r, body, 1, false, false, true);
    match info {
        None => {},
        Some(x) => {
            let r0 = r.at(r.offset + 4);
            let o = r0.offset;
            let a = bytes::u16_bytes(x.overlay_color_space);
            let b = bytes::u16_bytes(x.color_space1);
            let c = bytes::u16_bytes(x.color_space2);
            let d = bytes::u16_bytes(x.color_space3);
            let e = bytes::u16_bytes(x.color_space4);
            let f = bytes::u16_bytes(x.opacity);
            let g = seq![x.kind];
            bytes::lemma_holds_at_split(
                r.buffer,
                o,
                a + b + c + d + e + f + g,
                bytes::zeros(3),
            );
            bytes::lemma_holds_at_split(r.buffer, o, a + b + c + d + e + f, g);
            bytes::lemma_holds_at_split(r.buffer, o, a + b + c + d + e, f);
            bytes::lemma_holds_at_split(r.buffer, o, a + b + c + d, e);
            bytes::lemma_holds_at_split(r.buffer, o, a + b + c, d);
            bytes::lemma_holds_at_split(r.buffer, o, a + b, c);
            bytes::lemma_holds_at_split(r.buffer, o, a, b);
            roundtrip::law_uint16_round_trip(r0, x.overlay_color_space);
            roundtrip::law_uint16_round_trip(r0.at(o + 2), x.color_space1);
            roundtrip::law_uint16_round_trip(r0.at(o + 4), x.color_space2);
            roundtrip::law_uint16_round_trip(r0.at(o + 6), x.color_space3);
            roundtrip::law_uint16_round_trip(r0.at(o + 8), x.color_space4);
            roundtrip::law_uint16_round_trip(r0.at(o + 10), x.opacity);
            roundtrip::law_uint8_round_trip(r0.at(o + 12), x.kind);
        },
    }
}

} // verus!
