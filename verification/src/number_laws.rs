//! What numbers, texts and sections are as bytes: a number is read from the bytes that
//! make it up, the most significant first, and written as these bytes.

use vstd::prelude::*;

use crate::bytes;
use crate::reader;
use crate::reader::{ReaderState, Section};
use crate::text;
use crate::writer;

verus! {

broadcast use crate::bytes::group_bytes;

/// The number that two bytes make up, of which the first counts 256 times.
pub open spec fn number16(s: Seq<u8>, i: int) -> int {
    256 * s[i] + s[i + 1]
}

/// The number that four bytes make up, the most significant first.
pub open spec fn number32(s: Seq<u8>, i: int) -> int {
    65536 * number16(s, i) + number16(s, i + 2)
}

/// The number that eight bytes make up, the most significant first.
pub open spec fn number64(s: Seq<u8>, i: int) -> int {
    4294967296 * number32(s, i) + number32(s, i + 4)
}

/// The number that two bytes make up, of which the first bit tells a negative one.
pub open spec fn signed16(s: Seq<u8>, i: int) -> int {
    if s[i] >= 128 {
        number16(s, i) - 65536
    } else {
        number16(s, i)
    }
}

/// The number that four bytes make up, of which the first bit tells a negative one.
pub open spec fn signed32(s: Seq<u8>, i: int) -> int {
    if s[i] >= 128 {
        number32(s, i) - 4294967296
    } else {
        number32(s, i)
    }
}

/// The characters of a text are the bytes from `i` on.
pub open spec fn spells(s: Seq<u8>, i: int, letters: Seq<char>) -> bool {
    forall|k: int| 0 <= k < letters.len() ==> s[i + k] as int == #[trigger] letters[k] as int
}

/// The same reader with its cursor elsewhere, and nothing else changed.
pub open spec fn moved_to(r: ReaderState, after: ReaderState, offset: int) -> bool {
    after == (ReaderState { offset, ..r })
}

/// What four bytes make up is below two to the power of 32.
pub proof fn lemma_number_range(s: Seq<u8>, i: int)
    ensures
        0 <= number16(s, i) < 65536,
        0 <= number32(s, i) < 4294967296,
        -32768 <= signed16(s, i) < 32768,
        -2147483648 <= signed32(s, i) < 2147483648,
{
}

/// The numbers at a place, as the reader takes them.
pub proof fn lemma_at(s: Seq<u8>, i: int)
    ensures
        bytes::u16_at(s, i) == number16(s, i),
        bytes::u32_at(s, i) == number32(s, i),
        bytes::i16_of_bits(bytes::u16_at(s, i)) == signed16(s, i),
        bytes::i32_of_bits(bytes::u32_at(s, i)) == signed32(s, i),
{
    reveal(bytes::u16_at);
    reveal(bytes::u32_at);
    assert(s[i] * 0x100_0000 + s[i + 1] * 0x1_0000 + s[i + 2] * 0x100 + s[i + 3] == number32(s, i));
}

/// A number of one or two bytes is read from the bytes at the cursor, where they are
/// there, and the cursor moves behind them.
pub proof fn law_short_numbers_read(r: ReaderState)
    ensures
        match reader::get_u8(r) {
            Ok((v, after)) => r.offset + 1 <= r.buffer.len() && v == r.buffer[r.offset] && moved_to(
                r,
                after,
                r.offset + 1,
            ),
            Err(e) => r.offset + 1 > r.buffer.len() && e is UnexpectedEndOfBuffer,
        },
        match reader::get_i8(r) {
            Ok((v, after)) => r.offset + 1 <= r.buffer.len() && v == (if r.buffer[r.offset]
                < 128 {
                r.buffer[r.offset] as int
            } else {
                r.buffer[r.offset] - 256
            }) && moved_to(r, after, r.offset + 1),
            Err(e) => r.offset + 1 > r.buffer.len() && e is UnexpectedEndOfBuffer,
        },
        match reader::get_u16(r) {
            Ok((v, after)) => r.offset + 2 <= r.buffer.len() && v == number16(r.buffer, r.offset)
                && moved_to(r, after, r.offset + 2),
            Err(e) => r.offset + 2 > r.buffer.len() && e is UnexpectedEndOfBuffer,
        },
        match reader::get_i16(r) {
            Ok((v, after)) => r.offset + 2 <= r.buffer.len() && v == signed16(r.buffer, r.offset)
                && moved_to(r, after, r.offset + 2),
            Err(e) => r.offset + 2 > r.buffer.len() && e is UnexpectedEndOfBuffer,
        },
        match reader::get_u16_le(r) {
            Ok((v, after)) => r.offset + 2 <= r.buffer.len() && v == r.buffer[r.offset] + 256
                * r.buffer[r.offset + 1] && moved_to(r, after, r.offset + 2),
            Err(e) => r.offset + 2 > r.buffer.len() && e is UnexpectedEndOfBuffer,
        },
{
    reveal(bytes::u16_at);
    reveal(bytes::u16_le_at);
}

/// A number of four or eight bytes is read from the bytes at the cursor, where they are
/// there, and the cursor moves behind them.
pub proof fn law_long_numbers_read(r: ReaderState)
    ensures
        match reader::get_u32(r) {
            Ok((v, after)) => r.offset + 4 <= r.buffer.len() && v == number32(r.buffer, r.offset)
                && moved_to(r, after, r.offset + 4),
            Err(e) => r.offset + 4 > r.buffer.len() && e is UnexpectedEndOfBuffer,
        },
        match reader::get_i32(r) {
            Ok((v, after)) => r.offset + 4 <= r.buffer.len() && v == signed32(r.buffer, r.offset)
                && moved_to(r, after, r.offset + 4),
            Err(e) => r.offset + 4 > r.buffer.len() && e is UnexpectedEndOfBuffer,
        },
        match reader::get_i32_le(r) {
            Ok((v, after)) => {
                let back = seq![
                    r.buffer[r.offset + 3],
                    r.buffer[r.offset + 2],
                    r.buffer[r.offset + 1],
                    r.buffer[r.offset],
                ];
                r.offset + 4 <= r.buffer.len() && v == signed32(back, 0) && moved_to(
                    r,
                    after,
                    r.offset + 4,
                )
            },
            Err(e) => r.offset + 4 > r.buffer.len() && e is UnexpectedEndOfBuffer,
        },
        match reader::get_u64(r) {
            Ok((v, after)) => r.offset + 8 <= r.buffer.len() && v == number64(r.buffer, r.offset)
                && moved_to(r, after, r.offset + 8),
            Err(e) => r.offset + 8 > r.buffer.len() && e is UnexpectedEndOfBuffer,
        },
{
    lemma_at(r.buffer, r.offset);
    lemma_at(r.buffer, r.offset + 4);
    reveal(bytes::u32_le_at);
}

/// A number is written as the bytes that make it up, the most significant first; of the
/// little-endian ones the least significant comes first.
pub proof fn law_numbers_written(a: u16, b: i16, c: u32, d: i32, e: u64)
    ensures
        bytes::u16_bytes(a).len() == 2 && number16(bytes::u16_bytes(a), 0) == a,
        signed16(bytes::u16_bytes(bytes::i16_bits(b)), 0) == b,
        bytes::u32_bytes(c).len() == 4 && number32(bytes::u32_bytes(c), 0) == c,
        signed32(bytes::u32_bytes(bytes::i32_bits(d)), 0) == d,
        bytes::u64_bytes(e).len() == 8 && number64(bytes::u64_bytes(e), 0) == e,
        bytes::u16_le_bytes(a).reverse() == bytes::u16_bytes(a),
        bytes::u32_le_bytes(c).reverse() == bytes::u32_bytes(c),
{
    reveal(bytes::u16_bytes);
    reveal(bytes::u32_bytes);
    reveal(bytes::u16_le_bytes);
    reveal(bytes::u32_le_bytes);
    lemma_u32_written(c);
    lemma_u32_written(bytes::i32_bits(d));
    lemma_u32_written((e / 0x1_0000_0000) as u32);
    lemma_u32_written((e % 0x1_0000_0000) as u32);
    assert(bytes::u16_le_bytes(a).reverse() =~= bytes::u16_bytes(a));
    assert(bytes::u32_le_bytes(c).reverse() =~= bytes::u32_bytes(c));
}

/// The four bytes of a number make it up.
pub proof fn lemma_u32_written(v: u32)
    ensures
        bytes::u32_bytes(v).len() == 4,
        number32(bytes::u32_bytes(v), 0) == v,
{
    let s = bytes::u32_bytes(v);
    bytes::lemma_piece_holds(s, Seq::empty(), s, Seq::empty());
    bytes::lemma_u32_at(s, 0, v);
    lemma_at(s, 0);
}

/// The two bytes of a number make it up.
pub proof fn lemma_u16_written(v: u16)
    ensures
        bytes::u16_bytes(v).len() == 2,
        number16(bytes::u16_bytes(v), 0) == v,
{
    reveal(bytes::u16_bytes);
}

/// Bytes are those at the cursor, one by one. Where some are missing it is an error, or
/// they are zero.
pub proof fn law_bytes_read(r: ReaderState, count: int)
    requires
        0 <= r.offset,
        0 <= count,
        r.buffer.len() <= usize::MAX,
    ensures
        match reader::get_bytes(r, count) {
            Ok((found, after)) => {
                &&& found.len() == count
                &&& forall|i: int| 0 <= i < count && r.offset + i < r.buffer.len() ==> found[i]
                    == #[trigger] r.buffer[r.offset + i]
                &&& forall|i: int| 0 <= i < count && r.offset + i >= r.buffer.len()
                    ==> #[trigger] found[i] == 0
                &&& r.offset + count <= r.buffer.len() ==> moved_to(r, after, r.offset + count)
                &&& r.offset + count > r.buffer.len() ==> !r.strict && count <= 104857600
            },
            Err(e) => r.offset + count > r.buffer.len() && if r.strict {
                e is StrictViolation
            } else {
                e is ReadingPastEndOfFile && count > 104857600
            },
        },
{
}

/// A text of single bytes has the characters with the codes of these bytes.
pub proof fn law_short_text_read(r: ReaderState, count: int)
    requires
        0 <= r.offset,
        0 < count,
        r.offset + count <= r.buffer.len(),
    ensures
        reader::get_short_string(r, count) matches Ok((found, after)) && found.len() == count
            && spells(r.buffer, r.offset, found) && moved_to(r, after, r.offset + count),
        reader::get_ascii_string(r, count) matches Ok((found, after)) && found.len() == count
            && spells(r.buffer, r.offset, found) && moved_to(r, after, r.offset + count),
        count == 4 ==> (reader::get_signature(r) matches Ok((found, after)) && found.len() == 4
            && spells(r.buffer, r.offset, found) && moved_to(r, after, r.offset + 4)),
{
    let part = r.buffer.subrange(r.offset, r.offset + count);
    assert forall|k: int| 0 <= k < count implies r.buffer[r.offset + k] as int
        == #[trigger] text::latin1(part)[k] as int by {
        assert(part[k] == r.buffer[r.offset + k]);
        lemma_byte_char(part[k]);
    }
}

proof fn lemma_byte_char(b: u8)
    ensures
        (b as char) as int == b as int,
{
}

/// A text behind its length byte: as many characters as the byte says, and so many bytes
/// behind them that all together are a multiple of `pad_to`.
pub proof fn law_pascal_text_read(r: ReaderState, pad_to: int)
    requires
        0 <= r.offset,
        pad_to == 1 || pad_to == 2 || pad_to == 4,
        r.offset + 1 + r.buffer[r.offset] <= r.buffer.len(),
        r.offset + 260 <= usize::MAX,
    ensures
        reader::get_pascal_string(r, pad_to) matches Ok((found, after)) && {
            let count = r.buffer[r.offset] as int;
            &&& found.len() == count
            &&& spells(r.buffer, r.offset + 1, found)
            &&& moved_to(r, after, after.offset)
            &&& (after.offset - r.offset) % pad_to == 0
            &&& 1 + count <= after.offset - r.offset < 1 + count + pad_to
        },
{
    let count = r.buffer[r.offset] as int;
    law_short_numbers_read(r);
    let r1 = r.at(r.offset + 1);
    if count > 0 {
        law_short_text_read(r1, count);
    }
}

/// A text behind its length byte as it is written: its characters where they are ASCII,
/// question marks in place of others, and zeros up to a multiple of `pad_to`.
pub proof fn law_pascal_text_written(s: Seq<char>, pad_to: int)
    requires
        s.len() <= 255,
        pad_to == 1 || pad_to == 2 || pad_to == 4,
    ensures
        ({
            let code = writer::pascal_bytes(s, pad_to);
            &&& code[0] == s.len()
            &&& code.len() as int % pad_to == 0
            &&& 1 + s.len() <= code.len() < 1 + s.len() + pad_to
            &&& forall|k: int| 0 <= k < s.len() ==> (#[trigger] s[k] as int) < 128 ==> code[1 + k]
                == s[k] as int
            &&& forall|k: int| 0 <= k < s.len() ==> (#[trigger] s[k] as int) >= 128 ==> code[1 + k]
                == '?' as int
            &&& forall|k: int| 1 + s.len() <= k < code.len() ==> #[trigger] code[k] == 0
        }),
{
    let code = writer::pascal_bytes(s, pad_to);
    let pad = bytes::padding(s.len() as int + 1, pad_to);
    assert(code.len() == 1 + s.len() + pad);
    assert forall|k: int| 0 <= k < s.len() implies code[1 + k] == writer::pascal_byte(
        #[trigger] s[k],
    ) by {}
    assert forall|k: int| 1 + s.len() <= k < code.len() implies #[trigger] code[k] == 0 by {}
    assert forall|k: int|
        0 <= k < s.len() && (#[trigger] s[k] as int) < 128 implies code[1 + k] == s[k] as int by {
        text::lemma_char_code(s[k]);
    }
}

/// Two code units of a character beyond U+FFFF: the upper ten bits of its number less
/// 0x10000 in the first, the lower ten in the second; other characters are one unit.
pub proof fn law_utf16_units(c: char)
    ensures
        (c as int) < 0x10000 ==> text::utf16(seq![c]).len() == 1 && text::utf16(seq![c])[0]
            == c as int,
        (c as int) >= 0x10000 ==> ({
            let units = text::utf16(seq![c]);
            &&& units.len() == 2
            &&& 0xD800 <= units[0] < 0xDC00
            &&& 0xDC00 <= units[1] < 0xE000
            &&& (units[0] - 0xD800) * 1024 + (units[1] - 0xDC00) == c as int - 0x10000
        }),
{
    assert(seq![c].skip(1) =~= Seq::<char>::empty());
    assert(text::utf16(Seq::empty()) =~= Seq::<u16>::empty());
    assert(text::utf16(seq![c]) =~= text::char_units(c));
}

/// A text of UTF-16 code units behind their number: every unit is two bytes, and a zero
/// at the end does not count. A text that has no character beyond U+FFFF and no halves of
/// such characters is its units.
pub proof fn law_unicode_text_read(r: ReaderState)
    requires
        0 <= r.offset,
        r.offset + 4 <= r.buffer.len(),
        r.offset + 4 + 2 * number32(r.buffer, r.offset) <= r.buffer.len(),
        forall|i: int|
            0 <= i < number32(r.buffer, r.offset) ==> {
                let unit = #[trigger] number16(r.buffer, r.offset + 4 + 2 * i);
                0 < unit < 0xD800 || (unit == 0 && i == number32(r.buffer, r.offset) - 1)
            },
    ensures
        reader::get_unicode_string(r) matches Ok((found, after)) && {
            let count = number32(r.buffer, r.offset);
            &&& found.len() == (if count > 0 && number16(r.buffer, r.offset + 2 + 2 * count) == 0 {
                count - 1
            } else {
                count
            })
            &&& forall|i: int| 0 <= i < found.len() ==> #[trigger] found[i] as int == number16(
                r.buffer,
                r.offset + 4 + 2 * i,
            )
            &&& moved_to(r, after, r.offset + 4 + 2 * count)
        },
{
    law_long_numbers_read(r);
    let count = number32(r.buffer, r.offset);
    let r1 = r.at(r.offset + 4);
    let units = reader::text_units(r.buffer, r1.offset, count, false);
    assert forall|i: int| 0 <= i < count implies bytes::u16_at(r.buffer, r1.offset + 2 * i)
        == #[trigger] number16(r.buffer, r.offset + 4 + 2 * i) by {
        lemma_at(r.buffer, r1.offset + 2 * i);
    }
    if count > 0 {
        assert(bytes::u16_at(r.buffer, r1.offset + 2 * (count - 1)) == number16(
            r.buffer,
            r.offset + 4 + 2 * (count - 1),
        ));
        assert(r.offset + 2 + 2 * count == r.offset + 4 + 2 * (count - 1));
    }
    assert forall|i: int| 0 <= i < units.len() implies 0 < #[trigger] units[i] < 0xD800 by {
        assert(units[i] == number16(r.buffer, r.offset + 4 + 2 * i));
    }
    lemma_plain_units(units);
    assert forall|i: int| 0 <= i < units.len() implies #[trigger] text::utf16_decoded(
        units,
    )[i] as int == number16(r.buffer, r.offset + 4 + 2 * i) by {
        assert(units[i] == number16(r.buffer, r.offset + 4 + 2 * i));
    }
}

proof fn lemma_plain_units(units: Seq<u16>)
    requires
        forall|i: int| 0 <= i < units.len() ==> 0 < #[trigger] units[i] < 0xD800,
    ensures
        text::utf16_decoded(units).len() == units.len(),
        forall|i: int|
            0 <= i < units.len() ==> #[trigger] text::utf16_decoded(units)[i] as int == units[i],
    decreases units.len(),
{
    if units.len() > 0 {
        let rest = units.skip(1);
        assert forall|i: int| 0 <= i < rest.len() implies 0 < #[trigger] rest[i] < 0xD800 by {
            assert(rest[i] == units[i + 1]);
        }
        lemma_plain_units(rest);
        assert forall|i: int| 0 <= i < units.len() implies #[trigger] text::utf16_decoded(
            units,
        )[i] as int == units[i] by {
            if i > 0 {
                assert(text::utf16_decoded(units)[i] == text::utf16_decoded(rest)[i - 1]);
                assert(rest[i - 1] == units[i]);
            }
        }
    }
}

/// A text of UTF-16 code units as it is written: the number of units in four bytes and
/// every unit in two; the number counts a zero unit at the end where there is one.
pub proof fn law_unicode_text_written(s: Seq<char>)
    requires
        text::utf16(s).len() < 0xFFFF_FFFF,
    ensures
        ({
            let units = text::utf16(s);
            let code = writer::unicode_string_bytes(s);
            let padded = writer::padded_unicode_string_bytes(s);
            &&& code.len() == 4 + 2 * units.len()
            &&& number32(code, 0) == units.len()
            &&& forall|i: int| 0 <= i < units.len() ==> number16(code, 4 + 2 * i)
                == #[trigger] units[i]
            &&& padded.len() == 6 + 2 * units.len()
            &&& number32(padded, 0) == units.len() + 1
            &&& forall|i: int| 0 <= i < units.len() ==> number16(padded, 4 + 2 * i)
                == #[trigger] units[i]
            &&& number16(padded, 4 + 2 * units.len() as int) == 0
        }),
{
    let units = text::utf16(s);
    let n = units.len() as int;
    let code = writer::unicode_string_bytes(s);
    let padded = writer::padded_unicode_string_bytes(s);
    let body = writer::unit_bytes(units, false);
    let first = bytes::u32_bytes(n as u32);
    let second = bytes::u32_bytes((n + 1) as u32);
    lemma_u32_written(n as u32);
    lemma_u32_written((n + 1) as u32);
    lemma_u16_written(0);
    assert(code == first + body);
    assert(padded == second + body + bytes::u16_bytes(0));
    lemma_units_in_place(units, first + body, 4);
    lemma_units_in_place(units, padded, 4);
    lemma_first_number(code, first, body);
    lemma_first_number(padded, second, body + bytes::u16_bytes(0));
    assert(second + body + bytes::u16_bytes(0) =~= second + (body + bytes::u16_bytes(0)));
    assert(padded[4 + 2 * n] == bytes::u16_bytes(0)[0]);
    assert(padded[4 + 2 * n + 1] == bytes::u16_bytes(0)[1]);
}

proof fn lemma_first_number(s: Seq<u8>, first: Seq<u8>, rest: Seq<u8>)
    requires
        s =~= first + rest,
        first.len() == 4,
    ensures
        number32(s, 0) == number32(first, 0),
{
}

proof fn lemma_units_in_place(units: Seq<u16>, s: Seq<u8>, at: int)
    requires
        0 <= at,
        at + 2 * units.len() <= s.len(),
        forall|j: int|
            0 <= j < 2 * units.len() ==> s[at + j] == #[trigger] writer::unit_bytes(
                units,
                false,
            )[j],
    ensures
        forall|i: int| 0 <= i < units.len() ==> number16(s, at + 2 * i) == #[trigger] units[i],
{
    let body = writer::unit_bytes(units, false);
    assert forall|i: int| 0 <= i < units.len() implies number16(s, at + 2 * i)
        == #[trigger] units[i] by {
        lemma_u16_written(units[i]);
        assert((2 * i) / 2 == i && (2 * i + 1) / 2 == i);
        assert(body[2 * i] == bytes::u16_bytes(units[i])[0]);
        assert(body[2 * i + 1] == bytes::u16_bytes(units[i])[1]);
        assert(s[at + 2 * i] == body[2 * i]);
        assert(s[at + (2 * i + 1)] == body[2 * i + 1]);
    }
}

/// A section starts with its length in four bytes, or in eight of which the first four
/// are zero; what is in it follows. It is refused where the length does not fit in four
/// bytes or the bytes are not there. An empty one may count as none.
pub proof fn law_section_opened(r: ReaderState, skip_empty: bool, eight_bytes: bool)
    requires
        0 <= r.offset,
        r.buffer.len() <= usize::MAX,
        r.offset + (if eight_bytes {
            8int
        } else {
            4int
        }) <= r.buffer.len(),
    ensures
        ({
            let start = r.offset + (if eight_bytes {
                8int
            } else {
                4int
            });
            let length = number32(r.buffer, start - 4);
            match reader::open_section(r, skip_empty, eight_bytes) {
                Ok((None, after)) => skip_empty && length == 0 && (eight_bytes ==> number32(
                    r.buffer,
                    r.offset,
                ) == 0) && moved_to(r, after, start),
                Ok((Some(section), after)) => {
                    &&& !(skip_empty && length == 0)
                    &&& eight_bytes ==> number32(r.buffer, r.offset) == 0
                    &&& section.length == length
                    &&& section.end == start + length
                    &&& start + length <= r.buffer.len()
                    &&& moved_to(r, after, start)
                },
                Err(e) => if eight_bytes && number32(r.buffer, r.offset) != 0 {
                    e is SizeTooLarge
                } else {
                    e is SectionExceedsFileSize && start + length > r.buffer.len()
                },
            }
        }),
{
    law_long_numbers_read(r);
    law_long_numbers_read(r.at(r.offset + 4));
}

/// Behind a section the reader is at its end, and at the next multiple of `round` bytes
/// from its start where there is padding. Only where every deviation is reported does it
/// matter what has been read of the section.
pub proof fn law_section_closed(r: ReaderState, section: Section, round: int)
    requires
        round == 1 || round == 2 || round == 4,
        section.end + 4 <= usize::MAX,
    ensures
        match reader::close_section(r, section, round) {
            Ok((_, after)) => {
                let start = section.end - section.length;
                &&& moved_to(r, after, after.offset)
                &&& (after.offset - start) % round == 0
                &&& section.end <= after.offset < section.end + round
                &&& r.strict ==> r.offset == section.end
            },
            Err(e) => r.strict && r.offset != section.end && e is StrictViolation,
        },
{
}

/// A section as it is written: its length, in four bytes or in eight of which the first
/// four are zero; what is in it; and zeros up to a multiple of `round`, which the length
/// may count.
pub proof fn law_section_written(body: Seq<u8>, round: int, total: bool, large: bool)
    requires
        round == 1 || round == 2 || round == 4,
        body.len() + 4 < 0x1_0000_0000,
    ensures
        ({
            let code = writer::section_bytes(body, round, total, large);
            let start: int = if large {
                8
            } else {
                4
            };
            &&& start + body.len() <= code.len() < start + body.len() + round
            &&& (code.len() - start) % round == 0
            &&& number32(code, start - 4) == (if total {
                code.len() - start
            } else {
                body.len() as int
            })
            &&& large ==> number32(code, 0) == 0
            &&& forall|i: int| 0 <= i < body.len() ==> code[start + i] == #[trigger] body[i]
            &&& forall|i: int| start + body.len() <= i < code.len() ==> #[trigger] code[i] == 0
        }),
{
    let code = writer::section_bytes(body, round, total, large);
    let start: int = if large {
        8
    } else {
        4
    };
    let pad = bytes::padding(body.len() as int, round);
    let length = if total {
        body.len() + pad
    } else {
        body.len() as int
    };
    lemma_u32_written(length as u32);
    assert(code.subrange(start - 4, start) =~= bytes::u32_bytes(length as u32));
    assert forall|k: int| 0 <= k < 4 implies #[trigger] code[start - 4 + k] == bytes::u32_bytes(
        length as u32,
    )[k] by {
        assert(code.subrange(start - 4, start)[k] == code[start - 4 + k]);
    }
    assert(code[start - 4 + 0] == bytes::u32_bytes(length as u32)[0]);
    assert(code[start - 4 + 1] == bytes::u32_bytes(length as u32)[1]);
    assert(code[start - 4 + 2] == bytes::u32_bytes(length as u32)[2]);
    assert(code[start - 4 + 3] == bytes::u32_bytes(length as u32)[3]);
}

} // verus!
