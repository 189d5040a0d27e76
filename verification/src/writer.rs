//! The growing buffer a document is written to: numbers, strings and
//! length-prefixed sections.

use vstd::prelude::*;

use crate::bytes;
use crate::text;

pub use crate::color::write_color;
pub use crate::document_writer::{write_psd, write_psd_to_writer};
pub use crate::pattern_writer::write_pattern;
pub use crate::rle::rle_scratch_size;

verus! {

broadcast use crate::bytes::group_bytes;

/// A buffer of which the first `offset` bytes are written.
#[derive(Debug)]
pub struct PsdWriter {
    pub buffer: Vec<u8>,
    pub offset: usize,
    /// Room for the rows of a channel while they are compressed.
    pub temp_buffer: Option<Vec<u8>>,
}

impl PsdWriter {
    /// The written bytes lie in the buffer, and the buffer can grow by doubling.
    pub open spec fn wf(self) -> bool {
        &&& self.offset <= self.buffer@.len()
        &&& self.buffer@.len() > 0
    }

    /// What has been written.
    pub open spec fn data(self) -> Seq<u8> {
        self.buffer@.take(self.offset as int)
    }
}

/// The buffer has grown by doubling as far as what is written needs it.
pub open spec fn grew(before: PsdWriter, after: PsdWriter) -> bool {
    &&& before.wf()
    &&& before.offset <= after.offset
    &&& after.buffer@.len() == bytes::grown(before.buffer@.len() as int, after.offset as int)
}

/// The operation appended `piece` and did nothing else to what is written.
pub open spec fn wrote(before: PsdWriter, after: PsdWriter, piece: Seq<u8>) -> bool {
    &&& after.wf()
    &&& after.data() == before.data() + piece
    &&& after.offset == before.offset + piece.len()
    &&& after.buffer@.len() == bytes::grown(before.buffer@.len() as int, after.offset as int)
    &&& after.temp_buffer == before.temp_buffer
}

/// A writer with a buffer of `size` bytes.
pub fn create_writer(size: usize) -> (writer: PsdWriter)
    ensures
        writer.buffer@ == bytes::zeros(size as int),
        writer.offset == 0,
        writer.temp_buffer is None,
        writer.data() == Seq::<u8>::empty(),
        size > 0 ==> writer.wf(),
{
    let buffer: Vec<u8> = vec![0u8; size];
    assert(buffer@ =~= bytes::zeros(size as int));
    assert(buffer@.take(0) =~= Seq::<u8>::empty());
    PsdWriter { buffer, offset: 0, temp_buffer: None }
}

/// A writer with a buffer of 4096 bytes.
pub fn create_writer_default() -> (writer: PsdWriter)
    ensures
        writer.buffer@ == bytes::zeros(4096),
        writer.offset == 0,
        writer.temp_buffer is None,
        writer.data() == Seq::<u8>::empty(),
        writer.wf(),
{
    create_writer(4096)
}

/// A copy of what has been written.
pub fn get_writer_buffer(writer: &PsdWriter) -> (data: Vec<u8>)
    requires
        writer.offset <= writer.buffer@.len(),
    ensures
        data@ == writer.data(),
{
    vstd::slice::slice_to_vec(get_writer_buffer_no_copy(writer))
}

/// What has been written.
pub fn get_writer_buffer_no_copy(writer: &PsdWriter) -> (data: &[u8])
    requires
        writer.offset <= writer.buffer@.len(),
    ensures
        data@ == writer.data(),
{
    vstd::slice::slice_subrange(writer.buffer.as_slice(), 0, writer.offset)
}

/// Makes room for `count` more bytes.
fn ensure_size(writer: &mut PsdWriter, count: usize)
    requires
        old(writer).wf(),
    ensures
        final(writer).wf(),
        final(writer).offset == old(writer).offset,
        final(writer).data() == old(writer).data(),
        final(writer).temp_buffer == old(writer).temp_buffer,
        final(writer).offset + count <= final(writer).buffer@.len(),
        final(writer).buffer@.len() <= usize::MAX,
        final(writer).buffer@.len() == bytes::grown(
            old(writer).buffer@.len() as int,
            old(writer).offset + count,
        ),
{
    while writer.buffer.len() - writer.offset < count
        invariant
            writer.wf(),
            writer.offset == old(writer).offset,
            writer.data() == old(writer).data(),
            writer.temp_buffer == old(writer).temp_buffer,
            bytes::grown(writer.buffer@.len() as int, old(writer).offset + count) == bytes::grown(
                old(writer).buffer@.len() as int,
                old(writer).offset + count,
            ),
        decreases
                (if writer.buffer@.len() >= old(writer).offset + count {
                    0
                } else {
                    old(writer).offset + count - writer.buffer@.len()
                }),
    {
        let mut more: Vec<u8> = vec![0u8; writer.buffer.len()];
        writer.buffer.append(&mut more);
        assert(writer.data() =~= old(writer).data());
    }
}

/// Writes one byte.
pub fn write_uint8(writer: &mut PsdWriter, value: u8)
    requires
        old(writer).wf(),
    ensures
        wrote(*old(writer), *final(writer), seq![value]),
{
    ensure_size(writer, 1);
    let at: usize = writer.offset;
    writer.buffer.set(at, value);
    writer.offset = at + 1;
    assert(writer.data() =~= old(writer).data() + seq![value]);
}

/// Writes a big-endian 16-bit number.
pub fn write_uint16(writer: &mut PsdWriter, value: u16)
    requires
        old(writer).wf(),
    ensures
        wrote(*old(writer), *final(writer), bytes::u16_bytes(value)),
{
    reveal(bytes::u16_bytes);
    write_uint8(writer, (value / 256) as u8);
    write_uint8(writer, (value % 256) as u8);
    assert(writer.data() =~= old(writer).data() + bytes::u16_bytes(value));
}

/// Writes a little-endian 16-bit number.
pub fn write_uint16_le(writer: &mut PsdWriter, value: u16)
    requires
        old(writer).wf(),
    ensures
        wrote(*old(writer), *final(writer), bytes::u16_le_bytes(value)),
{
    reveal(bytes::u16_le_bytes);
    write_uint8(writer, (value % 256) as u8);
    write_uint8(writer, (value / 256) as u8);
    assert(writer.data() =~= old(writer).data() + bytes::u16_le_bytes(value));
}

/// Writes a big-endian signed 16-bit number.
pub fn write_int16(writer: &mut PsdWriter, value: i16)
    requires
        old(writer).wf(),
    ensures
        wrote(*old(writer), *final(writer), bytes::u16_bytes(bytes::i16_bits(value))),
{
    write_uint16(writer, bytes::bits_of_i16(value));
}

/// Writes a big-endian 32-bit number.
pub fn write_uint32(writer: &mut PsdWriter, value: u32)
    requires
        old(writer).wf(),
    ensures
        wrote(*old(writer), *final(writer), bytes::u32_bytes(value)),
{
    reveal(bytes::u32_bytes);
    write_uint8(writer, (value / 0x100_0000) as u8);
    write_uint8(writer, ((value / 0x1_0000) % 256) as u8);
    write_uint8(writer, ((value / 0x100) % 256) as u8);
    write_uint8(writer, (value % 256) as u8);
    assert(writer.data() =~= old(writer).data() + bytes::u32_bytes(value));
}

/// Writes a big-endian signed 32-bit number.
pub fn write_int32(writer: &mut PsdWriter, value: i32)
    requires
        old(writer).wf(),
    ensures
        wrote(*old(writer), *final(writer), bytes::u32_bytes(bytes::i32_bits(value))),
{
    write_uint32(writer, bytes::bits_of_i32(value));
}

/// Writes a little-endian signed 32-bit number.
pub fn write_int32_le(writer: &mut PsdWriter, value: i32)
    requires
        old(writer).wf(),
    ensures
        wrote(*old(writer), *final(writer), bytes::u32_le_bytes(bytes::i32_bits(value))),
{
    reveal(bytes::u32_le_bytes);
    let bits: u32 = bytes::bits_of_i32(value);
    write_uint8(writer, (bits % 256) as u8);
    write_uint8(writer, ((bits / 0x100) % 256) as u8);
    write_uint8(writer, ((bits / 0x1_0000) % 256) as u8);
    write_uint8(writer, (bits / 0x100_0000) as u8);
    assert(writer.data() =~= old(writer).data() + bytes::u32_le_bytes(bytes::i32_bits(value)));
}

/// Writes a big-endian 64-bit number, such as the bits of a floating point number.
pub fn write_uint64(writer: &mut PsdWriter, value: u64)
    requires
        old(writer).wf(),
    ensures
        wrote(*old(writer), *final(writer), bytes::u64_bytes(value)),
{
    write_uint32(writer, (value / 0x1_0000_0000) as u32);
    write_uint32(writer, (value % 0x1_0000_0000) as u32);
    assert(writer.data() =~= old(writer).data() + bytes::u64_bytes(value));
}

/// Writes some bytes, where there are any.
pub fn write_bytes(writer: &mut PsdWriter, buffer: Option<&[u8]>)
    requires
        old(writer).wf(),
    ensures
        buffer matches Some(b) ==> wrote(*old(writer), *final(writer), b@),
        buffer is None ==> *final(writer) == *old(writer),
{
    match buffer {
        None => {},
        Some(b) => {
            ensure_size(writer, b.len());
            let at: usize = writer.offset;
            let mut i: usize = 0;
            while i < b.len()
                invariant
                    i <= b@.len(),
                    at == old(writer).offset,
                    writer.offset == at,
                    at + b@.len() <= writer.buffer@.len() <= usize::MAX,
                    writer.buffer@.len() == bytes::grown(
                        old(writer).buffer@.len() as int,
                        old(writer).offset + b@.len(),
                    ),
                    writer.buffer@.len() > 0,
                    writer.temp_buffer == old(writer).temp_buffer,
                    writer.buffer@.take(at + i) == old(writer).data() + b@.take(i as int),
                decreases b@.len() - i,
            {
                let ghost filled = writer.buffer@.take(at + i);
                writer.buffer.set(at + i, b[i]);
                assert(writer.buffer@.take(at + i + 1) =~= filled.push(b@[i as int]));
                assert(old(writer).data() + b@.take(i + 1) =~= (old(writer).data() + b@.take(
                    i as int,
                )).push(b@[i as int]));
                i += 1;
            }
            writer.offset = at + b.len();
            assert(b@.take(i as int) =~= b@);
        },
    }
}

/// Writes `count` zero bytes.
pub fn write_zeros(writer: &mut PsdWriter, count: usize)
    requires
        old(writer).wf(),
    ensures
        wrote(*old(writer), *final(writer), bytes::zeros(count as int)),
{
    let mut i: usize = 0;
    assert(writer.data() =~= old(writer).data() + bytes::zeros(0));
    while i < count
        invariant
            i <= count,
            wrote(*old(writer), *writer, bytes::zeros(i as int)),
        decreases count - i,
    {
        write_uint8(writer, 0);
        i += 1;
        assert(writer.data() =~= old(writer).data() + bytes::zeros(i as int));
    }
}

/// Writes a signature, which takes four bytes.
pub fn write_signature(writer: &mut PsdWriter, signature: &str)
    requires
        old(writer).wf(),
        vstd::utf8::encode_utf8(signature@).len() == 4,
    ensures
        wrote(*old(writer), *final(writer), vstd::utf8::encode_utf8(signature@)),
{
    write_bytes(writer, Some(signature.as_bytes()));
}

/// The low eight bits of each character's code.
pub open spec fn char_bytes(s: Seq<char>) -> Seq<u8> {
    Seq::new(s.len(), |i: int| (s[i] as int % 256) as u8)
}

/// Writes the low eight bits of each character's code.
pub fn write_ascii_string(writer: &mut PsdWriter, text: &str)
    requires
        old(writer).wf(),
    ensures
        wrote(*old(writer), *final(writer), char_bytes(text@)),
{
    let chars: Vec<char> = text::chars_of(text);
    let mut i: usize = 0;
    assert(writer.data() =~= old(writer).data() + char_bytes(chars@.take(0)));
    while i < chars.len()
        invariant
            i <= chars@.len(),
            wrote(*old(writer), *writer, char_bytes(chars@.take(i as int))),
        decreases chars@.len() - i,
    {
        let c: char = chars[i];
        proof {
            text::lemma_char_code(c);
        }
        write_uint8(writer, (c as u32 % 256) as u8);
        i += 1;
        assert(writer.data() =~= old(writer).data() + char_bytes(chars@.take(i as int)));
    }
    assert(chars@.take(i as int) =~= chars@);
}

/// A character in a text behind a length byte: what is not ASCII becomes a question mark.
pub open spec fn pascal_byte(c: char) -> u8 {
    if (c as int) < 128 {
        c as u8
    } else {
        0x3F
    }
}

/// A text behind its length byte, padded to a multiple of `pad_to` bytes.
pub open spec fn pascal_bytes(s: Seq<char>, pad_to: int) -> Seq<u8> {
    seq![s.len() as u8] + Seq::new(s.len(), |i: int| pascal_byte(s[i])) + bytes::zeros(
        bytes::padding(s.len() as int + 1, pad_to),
    )
}

/// Writes a text of at most 255 characters behind its length byte, padded to a
/// multiple of `pad_to` bytes.
pub fn write_pascal_string(writer: &mut PsdWriter, text: &str, pad_to: usize)
    requires
        old(writer).wf(),
        text@.len() <= 255,
        pad_to > 0,
    ensures
        wrote(*old(writer), *final(writer), pascal_bytes(text@, pad_to as int)),
{
    let chars: Vec<char> = text::chars_of(text);
    let length: usize = chars.len();
    write_uint8(writer, length as u8);
    let ghost head = seq![length as u8];
    let ghost body = Seq::new(chars@.len(), |k: int| pascal_byte(chars@[k]));
    let mut i: usize = 0;
    assert(writer.data() =~= old(writer).data() + head + body.take(0));
    while i < length
        invariant
            i <= length,
            length == chars@.len(),
            body == Seq::new(chars@.len(), |k: int| pascal_byte(chars@[k])),
            writer.wf(),
            writer.temp_buffer == old(writer).temp_buffer,
            grew(*old(writer), *writer),
            writer.data() == old(writer).data() + head + body.take(i as int),
        decreases length - i,
    {
        let c: char = chars[i];
        proof {
            text::lemma_char_code(c);
        }
        let code: u32 = c as u32;
        write_uint8(
            writer,
            if code < 128 {
                code as u8
            } else {
                0x3F
            },
        );
        i += 1;
        assert(writer.data() =~= old(writer).data() + head + body.take(i as int));
    }
    write_zeros(writer, bytes::padding_for(length + 1, pad_to));
    assert(body.take(i as int) =~= body);
    assert(writer.data() =~= old(writer).data() + pascal_bytes(text@, pad_to as int));
}

/// Code units as bytes.
pub open spec fn unit_bytes(units: Seq<u16>, le: bool) -> Seq<u8> {
    Seq::new(
        2 * units.len(),
        |i: int|
            if le {
                bytes::u16_le_bytes(units[i / 2])[i % 2]
            } else {
                bytes::u16_bytes(units[i / 2])[i % 2]
            },
    )
}

fn write_units(writer: &mut PsdWriter, units: &Vec<u16>, le: bool)
    requires
        old(writer).wf(),
    ensures
        wrote(*old(writer), *final(writer), unit_bytes(units@, le)),
{
    reveal(bytes::u16_bytes);
    reveal(bytes::u16_le_bytes);
    let mut i: usize = 0;
    assert(writer.data() =~= old(writer).data() + unit_bytes(units@.take(0), le));
    while i < units.len()
        invariant
            i <= units@.len(),
            wrote(*old(writer), *writer, unit_bytes(units@.take(i as int), le)),
        decreases units@.len() - i,
    {
        let unit: u16 = units[i];
        if le {
            write_uint16_le(writer, unit);
        } else {
            write_uint16(writer, unit);
        }
        proof {
            let last = if le {
                bytes::u16_le_bytes(unit)
            } else {
                bytes::u16_bytes(unit)
            };
            assert(unit_bytes(units@.take(i + 1), le) =~= unit_bytes(units@.take(i as int), le)
                + last);
        }
        i += 1;
        assert(writer.data() =~= old(writer).data() + unit_bytes(units@.take(i as int), le));
    }
    assert(units@.take(i as int) =~= units@);
}

/// Writes the big-endian UTF-16 code units of a text.
pub fn write_unicode_string_without_length(writer: &mut PsdWriter, text: &str)
    requires
        old(writer).wf(),
    ensures
        wrote(*old(writer), *final(writer), unit_bytes(text::utf16(text@), false)),
{
    let units: Vec<u16> = text::utf16_units(text);
    write_units(writer, &units, false);
}

/// Writes the little-endian UTF-16 code units of a text.
pub fn write_unicode_string_without_length_le(writer: &mut PsdWriter, text: &str)
    requires
        old(writer).wf(),
    ensures
        wrote(*old(writer), *final(writer), unit_bytes(text::utf16(text@), true)),
{
    let units: Vec<u16> = text::utf16_units(text);
    write_units(writer, &units, true);
}

/// The low 32 bits of a length.
pub open spec fn low32(n: int) -> u32 {
    (n % 0x1_0000_0000) as u32
}

/// The low 32 bits of a length.
pub fn low_32_bits(n: usize) -> (v: u32)
    ensures
        v == low32(n as int),
{
    (n as u64 % 0x1_0000_0000) as u32
}

/// A text of UTF-16 code units behind their number.
pub open spec fn unicode_string_bytes(s: Seq<char>) -> Seq<u8> {
    bytes::u32_bytes(low32(text::utf16(s).len() as int)) + unit_bytes(text::utf16(s), false)
}

/// Writes a text of UTF-16 code units behind their number.
pub fn write_unicode_string(writer: &mut PsdWriter, text: &str)
    requires
        old(writer).wf(),
    ensures
        wrote(*old(writer), *final(writer), unicode_string_bytes(text@)),
{
    let units: Vec<u16> = text::utf16_units(text);
    write_uint32(writer, low_32_bits(units.len()));
    write_units(writer, &units, false);
    assert(writer.data() =~= old(writer).data() + unicode_string_bytes(text@));
}

/// A text of UTF-16 code units and a zero behind their number, which counts the zero.
pub open spec fn padded_unicode_string_bytes(s: Seq<char>) -> Seq<u8> {
    bytes::u32_bytes(low32(text::utf16(s).len() as int + 1)) + unit_bytes(text::utf16(s), false)
        + bytes::u16_bytes(0)
}

/// Writes a text of UTF-16 code units and a zero behind their number, which
/// counts the zero.
pub fn write_unicode_string_with_padding(writer: &mut PsdWriter, text: &str)
    requires
        old(writer).wf(),
    ensures
        wrote(*old(writer), *final(writer), padded_unicode_string_bytes(text@)),
{
    let units: Vec<u16> = text::utf16_units(text);
    let count: u32 = ((units.len() as u64 % 0x1_0000_0000 + 1) % 0x1_0000_0000) as u32;
    assert(count == low32(units@.len() as int + 1));
    write_uint32(writer, count);
    let ghost head = bytes::u32_bytes(count);
    write_units(writer, &units, false);
    let ghost body = unit_bytes(units@, false);
    write_uint16(writer, 0);
    assert(old(writer).data() + head + body + bytes::u16_bytes(0) =~= old(writer).data() + (head
        + body + bytes::u16_bytes(0)));
    assert(writer.data() == old(writer).data() + padded_unicode_string_bytes(text@));
}

/// A section: the length of `body` in four or eight bytes, `body`, and the
/// padding up to a multiple of `round`, which the length may count.
pub open spec fn section_bytes(
    body: Seq<u8>,
    round: int,
    write_total_length: bool,
    large: bool,
) -> Seq<u8> {
    let pad = bytes::padding(body.len() as int, round);
    let length = if write_total_length {
        body.len() + pad
    } else {
        body.len() as int
    };
    section_prefix(large) + bytes::u32_bytes(low32(length)) + body + bytes::zeros(pad)
}

/// The upper half of an eight-byte length.
pub open spec fn section_prefix(large: bool) -> Seq<u8> {
    if large {
        bytes::zeros(4)
    } else {
        Seq::empty()
    }
}

/// Starts a section; its length is filled in at its end. Gives the place of the length.
pub fn begin_section(writer: &mut PsdWriter, large: bool) -> (start: usize)
    requires
        old(writer).wf(),
    ensures
        start == old(writer).offset + section_prefix(large).len(),
        wrote(*old(writer), *final(writer), section_prefix(large) + bytes::zeros(4)),
{
    if large {
        write_zeros(writer, 4);
    }
    let start: usize = writer.offset;
    write_zeros(writer, 4);
    assert(writer.data() =~= old(writer).data() + (section_prefix(large) + bytes::zeros(4)));
    start
}

/// Fills in a big-endian 32-bit number.
fn patch_uint32(writer: &mut PsdWriter, at: usize, value: u32)
    requires
        old(writer).wf(),
        at + 4 <= old(writer).offset,
    ensures
        final(writer).wf(),
        final(writer).offset == old(writer).offset,
        final(writer).temp_buffer == old(writer).temp_buffer,
        final(writer).buffer@.len() == old(writer).buffer@.len(),
        final(writer).data() == old(writer).data().take(at as int) + bytes::u32_bytes(value)
            + old(writer).data().skip(at + 4),
{
    reveal(bytes::u32_bytes);
    writer.buffer.set(at, (value / 0x100_0000) as u8);
    writer.buffer.set(at + 1, ((value / 0x1_0000) % 256) as u8);
    writer.buffer.set(at + 2, ((value / 0x100) % 256) as u8);
    writer.buffer.set(at + 3, (value % 256) as u8);
    assert(writer.data() =~= old(writer).data().take(at as int) + bytes::u32_bytes(value) + old(
        writer,
    ).data().skip(at + 4));
}

/// What is written once a section that started at `start` is ended.
pub open spec fn ended_section(
    data: Seq<u8>,
    start: int,
    round: int,
    write_total_length: bool,
) -> Seq<u8> {
    let body = data.skip(start + 4);
    let pad = bytes::padding(body.len() as int, round);
    let length = if write_total_length {
        body.len() + pad
    } else {
        body.len() as int
    };
    data.take(start) + bytes::u32_bytes(low32(length)) + body + bytes::zeros(pad)
}

/// Ends a section: pads it to a multiple of `round` and fills in its length.
pub fn end_section(writer: &mut PsdWriter, start: usize, round: usize, write_total_length: bool)
    requires
        old(writer).wf(),
        start + 4 <= old(writer).offset,
        round > 0,
    ensures
        final(writer).wf(),
        final(writer).temp_buffer == old(writer).temp_buffer,
        final(writer).buffer@.len() == bytes::grown(
            old(writer).buffer@.len() as int,
            final(writer).offset as int,
        ),
        final(writer).data() == ended_section(
            old(writer).data(),
            start as int,
            round as int,
            write_total_length,
        ),
{
    let length: usize = writer.offset - start - 4;
    let pad: usize = bytes::padding_for(length, round);
    write_zeros(writer, pad);
    let total: usize = if write_total_length {
        writer.offset - start - 4
    } else {
        length
    };
    patch_uint32(writer, start, low_32_bits(total));
    assert(writer.data() =~= ended_section(
        old(writer).data(),
        start as int,
        round as int,
        write_total_length,
    ));
}

/// A section that is ended behind its body is the section of that body.
pub proof fn lemma_section_written(
    base: Seq<u8>,
    body: Seq<u8>,
    round: int,
    write_total_length: bool,
    large: bool,
)
    ensures
        ended_section(
            base + (section_prefix(large) + bytes::zeros(4)) + body,
            base.len() + section_prefix(large).len() as int,
            round,
            write_total_length,
        ) == base + section_bytes(body, round, write_total_length, large),
{
    let data = base + (section_prefix(large) + bytes::zeros(4)) + body;
    let start = base.len() + section_prefix(large).len() as int;
    assert(data.skip(start + 4) =~= body);
    assert(data.take(start) =~= base + section_prefix(large));
    assert(ended_section(data, start, round, write_total_length) =~= base + section_bytes(
        body,
        round,
        write_total_length,
        large,
    ));
}

/// Writes a section whose inside `func` writes. `func` gets the writer right
/// behind the place of the length, and must leave what is written before alone.
pub fn write_section<F: FnOnce(&mut PsdWriter)>(
    writer: &mut PsdWriter,
    round: usize,
    func: F,
    write_total_length: bool,
    large: bool,
)
    requires
        old(writer).wf(),
        round > 0,
        forall|w: &mut PsdWriter|
            wrote(*old(writer), *w, section_prefix(large) + bytes::zeros(4))
                ==> #[trigger] func.requires((w,)),
        forall|w: &mut PsdWriter|
            #![trigger func.ensures((w,), ())]
            wrote(*old(writer), *w, section_prefix(large) + bytes::zeros(4)) && func.ensures((w,), ())
                ==> final(w).wf() && w.data().len() <= final(w).data().len(),
    ensures
        final(writer).wf(),
        exists|w: &mut PsdWriter|
            wrote(*old(writer), *w, section_prefix(large) + bytes::zeros(4)) && #[trigger] func.ensures(
                (w,),
                (),
            ) && final(writer).data() == ended_section(
                final(w).data(),
                old(writer).offset + section_prefix(large).len(),
                round as int,
                write_total_length,
            ) && final(writer).temp_buffer == final(w).temp_buffer && final(writer).buffer@.len()
                == bytes::grown(final(w).buffer@.len() as int, final(writer).offset as int),
{
    let start: usize = begin_section(writer, large);
    assert(writer.offset == start + 4) by {
        assert(writer.data().len() == writer.offset);
        assert(old(writer).data().len() == old(writer).offset);
    }
    func(writer);
    assert(writer.data().len() == writer.offset);
    end_section(writer, start, round, write_total_length);
}

} // verus!
