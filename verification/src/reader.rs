//! The reading cursor: numbers, strings and length-prefixed sections.

use vstd::prelude::*;

use crate::bytes;
use crate::error::ErrorView;
use crate::psd::ReadOptions;
use crate::text;

pub use crate::codec::{read_data_raw, read_data_zip};
pub use crate::color::read_color;
pub use crate::document::{read_psd, read_psd_from_reader};
pub use crate::error::{ReadError, ReadResult};
pub use crate::lazy::{
    decode_layer_pixels, get_composite_image_data, get_layer_image_data, get_layer_mask_image_data,
    get_layer_real_mask_image_data,
};
pub use crate::pattern::read_pattern;
pub use crate::pixels::DecodeTarget;
pub use crate::rle::read_data_rle;

verus! {

broadcast use crate::bytes::group_bytes;

/// A cursor over the bytes of a document.
#[derive(Debug)]
pub struct PsdReader<'a> {
    pub buffer: &'a [u8],
    pub offset: usize,
    /// Report every deviation from the format instead of making the best of it.
    pub strict: bool,
    pub debug: bool,
    /// The document is in the large document format.
    pub large: bool,
    /// The composite image has a transparency channel.
    pub global_alpha: bool,
    /// What is left of the memory limit, where there is one.
    pub budget: Option<usize>,
    pub options: ReadOptions,
}

/// The mathematical view of [`PsdReader`].
#[verifier::ext_equal]
pub struct ReaderState {
    pub buffer: Seq<u8>,
    pub offset: int,
    pub strict: bool,
    pub debug: bool,
    pub large: bool,
    pub global_alpha: bool,
    pub budget: Option<usize>,
    pub options: ReadOptions,
}

/// What an operation on a reader gives: a value and the reader after it, or an error.
pub type Parsed<T> = Result<(T, ReaderState), ErrorView>;

impl<'a> View for PsdReader<'a> {
    type V = ReaderState;

    open spec fn view(&self) -> ReaderState {
        ReaderState {
            buffer: self.buffer@,
            offset: self.offset as int,
            strict: self.strict,
            debug: self.debug,
            large: self.large,
            global_alpha: self.global_alpha,
            budget: self.budget,
            options: self.options,
        }
    }
}

impl ReaderState {
    /// The same reader with the cursor somewhere else.
    pub open spec fn at(self, offset: int) -> ReaderState {
        ReaderState { offset, ..self }
    }

    /// The same reader with the cursor moved on.
    pub open spec fn skipped(self, count: int) -> ReaderState {
        self.at(bytes::clamp_offset(self.offset + count))
    }

    /// `count` bytes from the cursor on lie in the buffer.
    pub open spec fn has(self, count: int) -> bool {
        self.offset + count <= self.buffer.len()
    }

    /// Both readers work on the same bytes under the same settings.
    pub open spec fn same_source(self, other: ReaderState) -> bool {
        &&& self.buffer == other.buffer
        &&& self.strict == other.strict
        &&& self.debug == other.debug
        &&& self.options == other.options
    }
}

/// The result of an operation, and what became of the reader, are as `expected`.
/// In any case the reader still works on the same bytes under the same settings.
pub open spec fn reads<T: DeepView>(
    result: ReadResult<T>,
    before: ReaderState,
    after: ReaderState,
    expected: Parsed<T::V>,
) -> bool {
    match expected {
        Ok((value, state)) => result matches Ok(v) && v.deep_view() == value && after == state
            && after.same_source(before),
        Err(e) => result matches Err(err) && err@ == e && after.same_source(before),
    }
}

impl<'a> PsdReader<'a> {
    /// A reader over `length` bytes of `buffer` from `offset` on; by default over all.
    pub fn new(buffer: &'a [u8], offset: Option<usize>, length: Option<usize>) -> (reader: PsdReader<
        'a,
    >)
        requires
            (match offset {
                Some(start) => start,
                None => 0,
            }) + (match length {
                Some(len) => len,
                None => 0,
            }) <= buffer@.len(),
        ensures
            reader@ == new_reader_state(
                buffer@.subrange(
                    (match offset {
                        Some(start) => start as int,
                        None => 0,
                    }),
                    (match length {
                        Some(len) => (match offset {
                            Some(start) => start as int,
                            None => 0,
                        }) + len,
                        None => buffer@.len() as int,
                    }),
                ),
            ),
    {
        let size: usize = buffer.len();
        let start: usize = match offset {
            Some(start) => start,
            None => 0,
        };
        let end: usize = match length {
            Some(len) => start + len,
            None => size,
        };
        let options: ReadOptions = ReadOptions::default();
        PsdReader {
            buffer: vstd::slice::slice_subrange(buffer, start, end),
            offset: 0,
            strict: false,
            debug: false,
            large: false,
            global_alpha: false,
            budget: options.total_memory_limit,
            options,
        }
    }
}

/// A reader at the start of `buffer` under the default settings.
pub open spec fn new_reader_state(buffer: Seq<u8>) -> ReaderState {
    ReaderState {
        buffer,
        offset: 0,
        strict: false,
        debug: false,
        large: false,
        global_alpha: false,
        budget: Some(crate::psd::DEFAULT_TOTAL_MEMORY_LIMIT),
        options: crate::psd::default_read_options(),
    }
}

/// Where the reader is strict, a deviation from the format is an error.
pub fn warn_or_throw(reader: &PsdReader, message: &str) -> (result: ReadResult<()>)
    ensures
        reader.strict ==> (result matches Err(e) && e@ == ErrorView::StrictViolation(message@)),
        !reader.strict ==> result is Ok,
{
    if reader.strict {
        return Err(ReadError::StrictViolation(text::owned_text(message)));
    }
    Ok(())
}

fn ensure(reader: &PsdReader, len: usize) -> (result: ReadResult<usize>)
    ensures
        match result {
            Ok(start) => reader@.has(len as int) && start == reader.offset && start + len
                <= usize::MAX,
            Err(e) => !reader@.has(len as int) && e == ReadError::UnexpectedEndOfBuffer,
        },
{
    let start: usize = reader.offset;
    if len > reader.buffer.len() || start > reader.buffer.len() - len {
        return Err(ReadError::UnexpectedEndOfBuffer);
    }
    Ok(start)
}

/// The byte at the cursor.
pub open spec fn get_u8(r: ReaderState) -> Parsed<u8> {
    if r.has(1) {
        Ok((r.buffer[r.offset], r.at(r.offset + 1)))
    } else {
        Err(ErrorView::UnexpectedEndOfBuffer)
    }
}

pub open spec fn get_i8(r: ReaderState) -> Parsed<i8> {
    match get_u8(r) {
        Ok((v, s)) => Ok((bytes::i8_of_bits(v), s)),
        Err(e) => Err(e),
    }
}

/// The big-endian 16-bit number at the cursor.
pub open spec fn get_u16(r: ReaderState) -> Parsed<u16> {
    if r.has(2) {
        Ok((bytes::u16_at(r.buffer, r.offset), r.at(r.offset + 2)))
    } else {
        Err(ErrorView::UnexpectedEndOfBuffer)
    }
}

pub open spec fn get_u16_le(r: ReaderState) -> Parsed<u16> {
    if r.has(2) {
        Ok((bytes::u16_le_at(r.buffer, r.offset), r.at(r.offset + 2)))
    } else {
        Err(ErrorView::UnexpectedEndOfBuffer)
    }
}

pub open spec fn get_i16(r: ReaderState) -> Parsed<i16> {
    match get_u16(r) {
        Ok((v, s)) => Ok((bytes::i16_of_bits(v), s)),
        Err(e) => Err(e),
    }
}

/// The big-endian 32-bit number at the cursor.
pub open spec fn get_u32(r: ReaderState) -> Parsed<u32> {
    if r.has(4) {
        Ok((bytes::u32_at(r.buffer, r.offset), r.at(r.offset + 4)))
    } else {
        Err(ErrorView::UnexpectedEndOfBuffer)
    }
}

pub open spec fn get_i32(r: ReaderState) -> Parsed<i32> {
    match get_u32(r) {
        Ok((v, s)) => Ok((bytes::i32_of_bits(v), s)),
        Err(e) => Err(e),
    }
}

pub open spec fn get_i32_le(r: ReaderState) -> Parsed<i32> {
    if r.has(4) {
        Ok((bytes::i32_of_bits(bytes::u32_le_at(r.buffer, r.offset)), r.at(r.offset + 4)))
    } else {
        Err(ErrorView::UnexpectedEndOfBuffer)
    }
}

/// The big-endian 64-bit number at the cursor.
pub open spec fn get_u64(r: ReaderState) -> Parsed<u64> {
    if r.has(8) {
        Ok(
            (
                (bytes::u32_at(r.buffer, r.offset) * 0x1_0000_0000 + bytes::u32_at(
                    r.buffer,
                    r.offset + 4,
                )) as u64,
                r.at(r.offset + 8),
            ),
        )
    } else {
        Err(ErrorView::UnexpectedEndOfBuffer)
    }
}

/// Reads one byte.
pub fn read_uint8(reader: &mut PsdReader) -> (result: ReadResult<u8>)
    ensures
        reads(result, old(reader)@, final(reader)@, get_u8(old(reader)@)),
        result is Err ==> final(reader)@ == old(reader)@,
{
    let start: usize = ensure(reader, 1)?;
    reader.offset = start + 1;
    Ok(reader.buffer[start])
}

/// The byte at the cursor, which stays where it is.
pub fn peek_uint8(reader: &PsdReader) -> (result: ReadResult<u8>)
    ensures
        match get_u8(reader@) {
            Ok((v, s)) => result == Ok::<u8, ReadError>(v),
            Err(e) => result matches Err(err) && err@ == e,
        },
{
    let start: usize = ensure(reader, 1)?;
    Ok(reader.buffer[start])
}

/// Reads one byte as a signed number.
pub fn read_int8(reader: &mut PsdReader) -> (result: ReadResult<i8>)
    ensures
        reads(result, old(reader)@, final(reader)@, get_i8(old(reader)@)),
        result is Err ==> final(reader)@ == old(reader)@,
{
    let v: u8 = read_uint8(reader)?;
    Ok(bytes::i8_from_bits(v))
}

/// Reads a big-endian 16-bit number.
pub fn read_uint16(reader: &mut PsdReader) -> (result: ReadResult<u16>)
    ensures
        reads(result, old(reader)@, final(reader)@, get_u16(old(reader)@)),
        result is Err ==> final(reader)@ == old(reader)@,
{
    let start: usize = ensure(reader, 2)?;
    reader.offset = start + 2;
    Ok(bytes::u16_from(reader.buffer, start))
}

/// Reads a little-endian 16-bit number.
pub fn read_uint16_le(reader: &mut PsdReader) -> (result: ReadResult<u16>)
    ensures
        reads(result, old(reader)@, final(reader)@, get_u16_le(old(reader)@)),
        result is Err ==> final(reader)@ == old(reader)@,
{
    reveal(bytes::u16_le_at);
    let start: usize = ensure(reader, 2)?;
    reader.offset = start + 2;
    Ok(reader.buffer[start] as u16 + reader.buffer[start + 1] as u16 * 256)
}

/// Reads a big-endian signed 16-bit number.
pub fn read_int16(reader: &mut PsdReader) -> (result: ReadResult<i16>)
    ensures
        reads(result, old(reader)@, final(reader)@, get_i16(old(reader)@)),
        result is Err ==> final(reader)@ == old(reader)@,
{
    let v: u16 = read_uint16(reader)?;
    Ok(bytes::i16_from_bits(v))
}

/// Reads a big-endian 32-bit number.
pub fn read_uint32(reader: &mut PsdReader) -> (result: ReadResult<u32>)
    ensures
        reads(result, old(reader)@, final(reader)@, get_u32(old(reader)@)),
        result is Err ==> final(reader)@ == old(reader)@,
{
    let start: usize = ensure(reader, 4)?;
    reader.offset = start + 4;
    Ok(bytes::u32_from(reader.buffer, start))
}

/// The big-endian 32-bit number at the cursor, which stays where it is.
pub fn peek_uint32(reader: &PsdReader) -> (result: ReadResult<u32>)
    ensures
        match get_u32(reader@) {
            Ok((v, s)) => result == Ok::<u32, ReadError>(v),
            Err(e) => result matches Err(err) && err@ == e,
        },
{
    let start: usize = ensure(reader, 4)?;
    Ok(bytes::u32_from(reader.buffer, start))
}

/// Reads a big-endian signed 32-bit number.
pub fn read_int32(reader: &mut PsdReader) -> (result: ReadResult<i32>)
    ensures
        reads(result, old(reader)@, final(reader)@, get_i32(old(reader)@)),
        result is Err ==> final(reader)@ == old(reader)@,
{
    let v: u32 = read_uint32(reader)?;
    Ok(bytes::i32_from_bits(v))
}

/// Reads a little-endian signed 32-bit number.
pub fn read_int32_le(reader: &mut PsdReader) -> (result: ReadResult<i32>)
    ensures
        reads(result, old(reader)@, final(reader)@, get_i32_le(old(reader)@)),
        result is Err ==> final(reader)@ == old(reader)@,
{
    reveal(bytes::u32_le_at);
    let start: usize = ensure(reader, 4)?;
    reader.offset = start + 4;
    let v: u32 = reader.buffer[start] as u32 + reader.buffer[start + 1] as u32 * 0x100
        + reader.buffer[start + 2] as u32 * 0x1_0000 + reader.buffer[start + 3] as u32
        * 0x100_0000;
    Ok(bytes::i32_from_bits(v))
}

/// Reads a big-endian 64-bit number, such as the bits of a floating point number.
pub fn read_uint64(reader: &mut PsdReader) -> (result: ReadResult<u64>)
    ensures
        reads(result, old(reader)@, final(reader)@, get_u64(old(reader)@)),
        result is Err ==> final(reader)@ == old(reader)@,
{
    let start: usize = ensure(reader, 8)?;
    reader.offset = start + 8;
    let high: u32 = bytes::u32_from(reader.buffer, start);
    let low: u32 = bytes::u32_from(reader.buffer, start + 4);
    Ok(high as u64 * 0x1_0000_0000 + low as u64)
}

/// More than this is never made up past the end of the buffer.
pub const MAX_RECOVERED_BYTES: usize = 104857600;

/// `count` bytes of `s` from `start` on, with zeros in place of what lies past its end.
pub open spec fn padded_bytes(s: Seq<u8>, start: int, count: int) -> Seq<u8> {
    Seq::new(
        count as nat,
        |i: int|
            if start + i < s.len() {
                s[start + i]
            } else {
                0u8
            },
    )
}

/// `count` bytes from the cursor on.
pub open spec fn get_bytes(r: ReaderState, count: int) -> Parsed<Seq<u8>> {
    if r.has(count) {
        Ok((r.buffer.subrange(r.offset, r.offset + count), r.at(r.offset + count)))
    } else if r.strict {
        Err(ErrorView::StrictViolation("Reading bytes exceeding buffer length"@))
    } else if count > MAX_RECOVERED_BYTES {
        Err(ErrorView::ReadingPastEndOfFile)
    } else {
        Ok((padded_bytes(r.buffer, r.offset, count), r.skipped(count)))
    }
}

/// Reads `length` bytes. Where the buffer ends before, the rest is zeros; a
/// strict reader fails instead. The cursor moves on in either case.
pub fn read_bytes(reader: &mut PsdReader, length: usize) -> (result: ReadResult<Vec<u8>>)
    ensures
        reads(result, old(reader)@, final(reader)@, get_bytes(old(reader)@, length as int)),
        final(reader)@ == old(reader)@.skipped(length as int),
{
    let start: usize = reader.offset;
    reader.offset = start.saturating_add(length);
    if length > reader.buffer.len() || start > reader.buffer.len() - length {
        warn_or_throw(reader, "Reading bytes exceeding buffer length")?;
        if length > MAX_RECOVERED_BYTES {
            return Err(ReadError::ReadingPastEndOfFile);
        }
        let mut result: Vec<u8> = Vec::new();
        let mut i: usize = 0;
        while i < length
            invariant
                i <= length,
                start == old(reader)@.offset,
                reader.buffer@ == old(reader)@.buffer,
                result@ == padded_bytes(reader.buffer@, start as int, i as int),
            decreases length - i,
        {
            if start < reader.buffer.len() && i < reader.buffer.len() - start {
                result.push(reader.buffer[start + i]);
            } else {
                result.push(0);
            }
            i += 1;
            assert(result@ =~= padded_bytes(reader.buffer@, start as int, i as int));
        }
        Ok(result)
    } else {
        Ok(
            vstd::slice::slice_to_vec(
                vstd::slice::slice_subrange(reader.buffer, start, start + length),
            ),
        )
    }
}

/// Reads `length` bytes without copying them; there is nothing to read past the
/// end of the buffer.
pub fn read_bytes_slice<'a>(reader: &mut PsdReader<'a>, length: usize) -> (result: ReadResult<
    &'a [u8],
>)
    ensures
        old(reader)@.has(length as int) ==> (result matches Ok(s) && s@
            == old(reader)@.buffer.subrange(
            old(reader)@.offset,
            old(reader)@.offset + length,
        ) && final(reader)@ == old(reader)@.at(old(reader)@.offset + length)),
        !old(reader)@.has(length as int) ==> result is Err && result->Err_0
            == ReadError::UnexpectedEndOfBuffer && final(reader)@ == old(reader)@,
{
    let start: usize = ensure(reader, length)?;
    reader.offset = start + length;
    Ok(vstd::slice::slice_subrange(reader.buffer, start, start + length))
}

/// Moves the cursor on by `count` bytes.
pub fn skip_bytes(reader: &mut PsdReader, count: usize)
    ensures
        final(reader)@ == old(reader)@.skipped(count as int),
{
    reader.offset = reader.offset.saturating_add(count);
}

/// A text of `count` bytes, each the code of a character.
pub open spec fn get_short_string(r: ReaderState, count: int) -> Parsed<Seq<char>> {
    match get_bytes(r, count) {
        Ok((b, s)) => Ok((text::latin1(b), s)),
        Err(e) => Err(e),
    }
}

/// Reads a text of `length` bytes, each the code of a character.
pub fn read_short_string(reader: &mut PsdReader, length: usize) -> (result: ReadResult<String>)
    ensures
        reads(result, old(reader)@, final(reader)@, get_short_string(old(reader)@, length as int)),
        final(reader)@ == old(reader)@.skipped(length as int),
{
    let b: Vec<u8> = read_bytes(reader, length)?;
    Ok(text::latin1_string(&b))
}

/// A text of `count` bytes that all lie in the buffer.
pub open spec fn get_ascii_string(r: ReaderState, count: int) -> Parsed<Seq<char>> {
    if count == 0 {
        Ok((Seq::empty(), r))
    } else if r.has(count) {
        Ok(
            (
                text::latin1(r.buffer.subrange(r.offset, r.offset + count)),
                r.at(r.offset + count),
            ),
        )
    } else {
        Err(ErrorView::UnexpectedEndOfBuffer)
    }
}

/// Reads a text of `length` bytes one by one.
pub fn read_ascii_string(reader: &mut PsdReader, length: usize) -> (result: ReadResult<String>)
    ensures
        reads(result, old(reader)@, final(reader)@, get_ascii_string(old(reader)@, length as int)),
{
    let ghost start = reader@;
    let mut result: String = String::new();
    let mut i: usize = 0;
    while i < length
        invariant
            i <= length,
            start == old(reader)@,
            i > 0 ==> start.has(i as int),
            reader@ == start.at(start.offset + i),
            i == 0 ==> result@ == Seq::<char>::empty(),
            i > 0 ==> result@ == text::latin1(
                start.buffer.subrange(start.offset, start.offset + i),
            ),
        decreases length - i,
    {
        let b: u8 = read_uint8(reader)?;
        result.push(b as char);
        i += 1;
        assert(result@ =~= text::latin1(start.buffer.subrange(start.offset, start.offset + i)));
    }
    Ok(result)
}

/// A signature: a text of four bytes.
pub open spec fn get_signature(r: ReaderState) -> Parsed<Seq<char>> {
    get_short_string(r, 4)
}

/// Reads a four-byte signature.
pub fn read_signature(reader: &mut PsdReader) -> (result: ReadResult<String>)
    ensures
        reads(result, old(reader)@, final(reader)@, get_signature(old(reader)@)),
        final(reader)@ == old(reader)@.skipped(4),
{
    read_short_string(reader, 4)
}

/// Whether one of the two signatures of a block lies at `offset`.
pub open spec fn block_signature_at(buffer: Seq<u8>, offset: int) -> bool {
    &&& offset + 4 <= buffer.len()
    &&& buffer[offset] == 0x38
    &&& buffer[offset + 1] == 0x42
    &&& ((buffer[offset + 2] == 0x49 && buffer[offset + 3] == 0x4D) || (buffer[offset + 2] == 0x36
        && buffer[offset + 3] == 0x34))
}

/// Whether `8BIM` or `8B64` lies at `offset`.
pub fn valid_signature_at(reader: &PsdReader, offset: usize) -> (valid: bool)
    ensures
        valid == block_signature_at(reader@.buffer, offset as int),
{
    if reader.buffer.len() < 4 || offset > reader.buffer.len() - 4 {
        return false;
    }
    let b: &[u8] = reader.buffer;
    b[offset] == 0x38 && b[offset + 1] == 0x42 && ((b[offset + 2] == 0x49 && b[offset + 3] == 0x4D)
        || (b[offset + 2] == 0x36 && b[offset + 3] == 0x34))
}

/// A text behind its length byte; length byte, text and padding together fill a
/// multiple of `pad_to` bytes.
pub open spec fn get_pascal_string(r: ReaderState, pad_to: int) -> Parsed<Seq<char>> {
    match get_u8(r) {
        Err(e) => Err(e),
        Ok((length, r1)) => match get_short_string(r1, length as int) {
            Err(e) => Err(e),
            Ok((text, r2)) => Ok((text, r2.skipped(bytes::padding(length + 1, pad_to)))),
        },
    }
}

/// Reads a text behind its length byte, and the padding that fills it up to a
/// multiple of `pad_to` bytes.
pub fn read_pascal_string(reader: &mut PsdReader, pad_to: usize) -> (result: ReadResult<String>)
    requires
        pad_to > 0,
    ensures
        reads(result, old(reader)@, final(reader)@, get_pascal_string(old(reader)@, pad_to as int)),
{
    let length: u8 = read_uint8(reader)?;
    let text: String = read_short_string(reader, length as usize)?;
    skip_bytes(reader, bytes::padding_for(length as usize + 1, pad_to));
    Ok(text)
}

/// The code units of a text of `count` units at the cursor; a zero at the end is
/// not part of the text.
pub open spec fn text_units(buffer: Seq<u8>, offset: int, count: int, le: bool) -> Seq<u16> {
    let units = Seq::new(
        count as nat,
        |i: int|
            if le {
                bytes::u16_le_at(buffer, offset + 2 * i)
            } else {
                bytes::u16_at(buffer, offset + 2 * i)
            },
    );
    if count > 0 && units[count - 1] == 0 {
        units.drop_last()
    } else {
        units
    }
}

/// A text of `count` UTF-16 code units.
pub open spec fn get_unicode_text(r: ReaderState, count: int, le: bool) -> Parsed<Seq<char>> {
    if count == 0 || r.has(2 * count) {
        Ok(
            (
                text::utf16_decoded(text_units(r.buffer, r.offset, count, le)),
                r.at(r.offset + 2 * count),
            ),
        )
    } else {
        Err(ErrorView::UnexpectedEndOfBuffer)
    }
}

/// A text of UTF-16 code units behind their number.
pub open spec fn get_unicode_string(r: ReaderState) -> Parsed<Seq<char>> {
    match get_u32(r) {
        Err(e) => Err(e),
        Ok((count, r1)) => get_unicode_text(r1, count as int, false),
    }
}

fn read_units(reader: &mut PsdReader, length: usize, le: bool) -> (result: ReadResult<String>)
    ensures
        reads(result, old(reader)@, final(reader)@, get_unicode_text(old(reader)@, length as int, le)),
{
    let ghost start = reader@;
    let mut units: Vec<u16> = Vec::new();
    let mut i: usize = 0;
    while i < length
        invariant
            i <= length,
            start == old(reader)@,
            i > 0 ==> start.has(2 * i),
            reader@ == start.at(start.offset + 2 * i),
            units@ == (if i == length {
                text_units(start.buffer, start.offset, length as int, le)
            } else {
                Seq::new(
                    i as nat,
                    |k: int|
                        if le {
                            bytes::u16_le_at(start.buffer, start.offset + 2 * k)
                        } else {
                            bytes::u16_at(start.buffer, start.offset + 2 * k)
                        },
                )
            }),
        decreases length - i,
    {
        let value: u16 = if le {
            read_uint16_le(reader)?
        } else {
            read_uint16(reader)?
        };
        i += 1;
        if value != 0 || i < length {
            units.push(value);
        }
        proof {
            let all = Seq::new(
                i as nat,
                |k: int|
                    if le {
                        bytes::u16_le_at(start.buffer, start.offset + 2 * k)
                    } else {
                        bytes::u16_at(start.buffer, start.offset + 2 * k)
                    },
            );
            assert(all[i - 1] == value);
            if value != 0 || i < length {
                assert(units@ =~= all);
            } else {
                assert(units@ =~= all.drop_last());
            }
        }
    }
    assert(units@ =~= text_units(start.buffer, start.offset, length as int, le));
    Ok(text::utf16_units_to_string(&units))
}

/// Reads a text of `length` big-endian UTF-16 code units.
pub fn read_unicode_string_with_length(reader: &mut PsdReader, length: usize) -> (result: ReadResult<
    String,
>)
    ensures
        reads(
            result,
            old(reader)@,
            final(reader)@,
            get_unicode_text(old(reader)@, length as int, false),
        ),
{
    read_units(reader, length, false)
}

/// Reads a text of `length` little-endian UTF-16 code units.
pub fn read_unicode_string_with_length_le(reader: &mut PsdReader, length: usize) -> (result:
    ReadResult<String>)
    ensures
        reads(
            result,
            old(reader)@,
            final(reader)@,
            get_unicode_text(old(reader)@, length as int, true),
        ),
{
    read_units(reader, length, true)
}

/// Reads a text of big-endian UTF-16 code units behind their number.
pub fn read_unicode_string(reader: &mut PsdReader) -> (result: ReadResult<String>)
    ensures
        reads(result, old(reader)@, final(reader)@, get_unicode_string(old(reader)@)),
{
    let length: u32 = read_uint32(reader)?;
    read_unicode_string_with_length(reader, length as usize)
}

/// A signature that is one of two.
pub open spec fn expect_signature(r: ReaderState, a: Seq<char>, b: Option<Seq<char>>) -> Parsed<()> {
    match get_signature(r) {
        Err(e) => Err(e),
        Ok((signature, r1)) => if signature == a || b == Some(signature) {
            Ok(((), r1))
        } else {
            Err(ErrorView::InvalidSignature { signature, offset: r.offset })
        },
    }
}

/// Reads a signature and fails where it is neither `a` nor `b`.
pub fn check_signature(reader: &mut PsdReader, a: &str, b: Option<&str>) -> (result: ReadResult<()>)
    ensures
        reads(
            result,
            old(reader)@,
            final(reader)@,
            expect_signature(
                old(reader)@,
                a@,
                match b {
                    Some(s) => Some(s@),
                    None => None,
                },
            ),
        ),
        final(reader)@ == old(reader)@.skipped(4),
{
    let offset: usize = reader.offset;
    let signature: String = read_signature(reader)?;
    if text::same_text(signature.as_str(), a) {
        return Ok(());
    }
    match b {
        Some(other) => {
            if text::same_text(signature.as_str(), other) {
                return Ok(());
            }
        },
        None => {},
    }
    Err(ReadError::InvalidSignature { signature, offset })
}

/// A length-prefixed part of the document: how long it is and where it ends.
#[derive(Clone, Copy, Debug, PartialEq, Eq, Structural)]
pub struct Section {
    pub length: usize,
    pub end: usize,
}

impl Section {
    /// How many bytes of the section lie behind the cursor.
    pub open spec fn rest(self, r: ReaderState) -> int {
        if r.offset <= self.end {
            self.end - r.offset
        } else {
            0
        }
    }

    /// How many bytes of the section the reader has not read yet.
    pub fn left(&self, reader: &PsdReader) -> (left: usize)
        ensures
            left == self.rest(reader@),
    {
        self.end.saturating_sub(reader.offset)
    }
}

impl DeepView for Section {
    type V = Section;

    open spec fn deep_view(&self) -> Section {
        *self
    }
}

/// The length of a section, in four or eight bytes.
pub open spec fn get_section_length(r: ReaderState, eight_bytes: bool) -> Parsed<u32> {
    match get_u32(r) {
        Err(e) => Err(e),
        Ok((length, r1)) => if eight_bytes {
            if length != 0 {
                Err(ErrorView::SizeTooLarge)
            } else {
                get_u32(r1)
            }
        } else {
            Ok((length, r1))
        },
    }
}

/// The head of a section; an empty one may count as none.
pub open spec fn open_section(r: ReaderState, skip_empty: bool, eight_bytes: bool) -> Parsed<
    Option<Section>,
> {
    match get_section_length(r, eight_bytes) {
        Err(e) => Err(e),
        Ok((length, r1)) => if length == 0 && skip_empty {
            Ok((None, r1))
        } else if !r1.has(length as int) {
            Err(ErrorView::SectionExceedsFileSize)
        } else {
            Ok(
                (
                    Some(
                        Section { length: length as usize, end: (r1.offset + length) as usize },
                    ),
                    r1,
                ),
            )
        },
    }
}

/// The end of a section, and the padding behind it up to a multiple of `round`.
pub open spec fn close_section(r: ReaderState, section: Section, round: int) -> Parsed<()> {
    if r.strict && r.offset > section.end {
        Err(ErrorView::StrictViolation("Exceeded section limits"@))
    } else if r.strict && r.offset < section.end {
        Err(ErrorView::StrictViolation("Unread section data"@))
    } else {
        Ok(
            (
                (),
                r.at(
                    bytes::clamp_offset(
                        section.end + bytes::padding(section.length as int, round),
                    ),
                ),
            ),
        )
    }
}

/// Reads the head of a section.
pub fn begin_section(reader: &mut PsdReader, skip_empty: bool, eight_bytes: bool) -> (result:
    ReadResult<Option<Section>>)
    ensures
        reads(
            result,
            old(reader)@,
            final(reader)@,
            open_section(old(reader)@, skip_empty, eight_bytes),
        ),
{
    let mut length: u32 = read_uint32(reader)?;
    if eight_bytes {
        if length != 0 {
            return Err(ReadError::SizeTooLarge);
        }
        length = read_uint32(reader)?;
    }
    if length == 0 && skip_empty {
        return Ok(None);
    }
    if length as usize > reader.buffer.len() - reader.offset {
        return Err(ReadError::SectionExceedsFileSize);
    }
    Ok(Some(Section { length: length as usize, end: reader.offset + length as usize }))
}

/// Moves on to the end of a section and the padding behind it.
pub fn end_section(reader: &mut PsdReader, section: Section, round: usize) -> (result: ReadResult<
    (),
>)
    requires
        round > 0,
    ensures
        reads(
            result,
            old(reader)@,
            final(reader)@,
            close_section(old(reader)@, section, round as int),
        ),
{
    if reader.offset != section.end {
        if reader.offset > section.end {
            warn_or_throw(reader, "Exceeded section limits")?;
        } else {
            warn_or_throw(reader, "Unread section data")?;
        }
    }
    reader.offset = section.end.saturating_add(bytes::padding_for(section.length, round));
    Ok(())
}

/// Reads a section: its head, what `func` makes of its inside, and the padding
/// behind it. `func` gets the reader right behind the head.
pub fn read_section<'a, T, F>(
    reader: &mut PsdReader<'a>,
    round: usize,
    func: F,
    skip_empty: bool,
    eight_bytes: bool,
) -> (result: ReadResult<Option<T>>) where
    F: FnOnce(&mut PsdReader<'a>, Section) -> ReadResult<T>,

    requires
        round > 0,
        open_section(old(reader)@, skip_empty, eight_bytes) matches Ok((Some(section), inside))
            ==> forall|r: &mut PsdReader<'a>| r@ == inside ==> #[trigger] func.requires((r, section)),
    ensures
        match open_section(old(reader)@, skip_empty, eight_bytes) {
            Err(e) => result matches Err(err) && err@ == e,
            Ok((None, after)) => result matches Ok(none) && none is None && final(reader)@ == after,
            Ok((Some(section), inside)) => exists|r: &mut PsdReader<'a>, made: ReadResult<T>|
                r@ == inside && #[trigger] func.ensures((r, section), made) && match made {
                    Err(err) => result is Err && result->Err_0 == err,
                    Ok(value) => match close_section(final(r)@, section, round as int) {
                        Err(e) => result matches Err(err) && err@ == e,
                        Ok((_, after)) => result matches Ok(v) && v == Some(value)
                            && final(reader)@ == after,
                    },
                },
        },
{
    let section: Section = match begin_section(reader, skip_empty, eight_bytes)? {
        None => {
            return Ok(None);
        },
        Some(section) => section,
    };
    let value: T = func(reader, section)?;
    end_section(reader, section, round)?;
    Ok(Some(value))
}

} // verus!
