//! What is written is what is read: numbers, texts and sections.

use vstd::prelude::*;

use crate::bytes;
use crate::error::ErrorView;
use crate::reader;
use crate::reader::{ReaderState, Section};
use crate::text;
use crate::utf8;
use crate::writer;

verus! {

broadcast use crate::bytes::group_bytes;

/// A byte is read where it was written.
pub proof fn law_uint8_round_trip(r: ReaderState, v: u8)
    requires
        bytes::holds_at(r.buffer, r.offset, seq![v]),
    ensures
        reader::get_u8(r) == Ok::<(u8, ReaderState), ErrorView>((v, r.at(r.offset + 1))),
{
    bytes::lemma_holds_at_room(r.buffer, r.offset, seq![v]);
    bytes::lemma_holds_at_index(r.buffer, r.offset, seq![v], 0);
}

/// A 16-bit number is read where it was written.
pub proof fn law_uint16_round_trip(r: ReaderState, v: u16)
    requires
        bytes::holds_at(r.buffer, r.offset, bytes::u16_bytes(v)),
    ensures
        reader::get_u16(r) == Ok::<(u16, ReaderState), ErrorView>((v, r.at(r.offset + 2))),
{
    bytes::lemma_u16_at(r.buffer, r.offset, v);
}

/// A little-endian 16-bit number is read where it was written.
pub proof fn law_uint16_le_round_trip(r: ReaderState, v: u16)
    requires
        bytes::holds_at(r.buffer, r.offset, bytes::u16_le_bytes(v)),
    ensures
        reader::get_u16_le(r) == Ok::<(u16, ReaderState), ErrorView>((v, r.at(r.offset + 2))),
{
    bytes::lemma_u16_le_at(r.buffer, r.offset, v);
}

/// A signed 16-bit number is read where it was written.
pub proof fn law_int16_round_trip(r: ReaderState, v: i16)
    requires
        bytes::holds_at(r.buffer, r.offset, bytes::u16_bytes(bytes::i16_bits(v))),
    ensures
        reader::get_i16(r) == Ok::<(i16, ReaderState), ErrorView>((v, r.at(r.offset + 2))),
{
    law_uint16_round_trip(r, bytes::i16_bits(v));
    bytes::lemma_signed_bits(v, 0);
}

/// A 32-bit number is read where it was written.
pub proof fn law_uint32_round_trip(r: ReaderState, v: u32)
    requires
        bytes::holds_at(r.buffer, r.offset, bytes::u32_bytes(v)),
    ensures
        reader::get_u32(r) == Ok::<(u32, ReaderState), ErrorView>((v, r.at(r.offset + 4))),
{
    bytes::lemma_u32_at(r.buffer, r.offset, v);
}

/// A signed 32-bit number is read where it was written.
pub proof fn law_int32_round_trip(r: ReaderState, v: i32)
    requires
        bytes::holds_at(r.buffer, r.offset, bytes::u32_bytes(bytes::i32_bits(v))),
    ensures
        reader::get_i32(r) == Ok::<(i32, ReaderState), ErrorView>((v, r.at(r.offset + 4))),
{
    law_uint32_round_trip(r, bytes::i32_bits(v));
    bytes::lemma_signed_bits(0, v);
}

/// A little-endian signed 32-bit number is read where it was written.
pub proof fn law_int32_le_round_trip(r: ReaderState, v: i32)
    requires
        bytes::holds_at(r.buffer, r.offset, bytes::u32_le_bytes(bytes::i32_bits(v))),
    ensures
        reader::get_i32_le(r) == Ok::<(i32, ReaderState), ErrorView>((v, r.at(r.offset + 4))),
{
    bytes::lemma_u32_le_at(r.buffer, r.offset, bytes::i32_bits(v));
    bytes::lemma_signed_bits(0, v);
}

/// A 64-bit number is read where it was written.
pub proof fn law_uint64_round_trip(r: ReaderState, v: u64)
    requires
        bytes::holds_at(r.buffer, r.offset, bytes::u64_bytes(v)),
    ensures
        reader::get_u64(r) == Ok::<(u64, ReaderState), ErrorView>((v, r.at(r.offset + 8))),
{
    let high = (v / 0x1_0000_0000) as u32;
    let low = (v % 0x1_0000_0000) as u32;
    bytes::lemma_holds_at_split(
        r.buffer,
        r.offset,
        bytes::u32_bytes(high),
        bytes::u32_bytes(low),
    );
    bytes::lemma_u32_at(r.buffer, r.offset, high);
    bytes::lemma_u32_at(r.buffer, r.offset + 4, low);
}

/// Bytes are read where they were written.
pub proof fn law_bytes_round_trip(r: ReaderState, piece: Seq<u8>)
    requires
        bytes::holds_at(r.buffer, r.offset, piece),
    ensures
        reader::get_bytes(r, piece.len() as int) == Ok::<(Seq<u8>, ReaderState), ErrorView>(
            (piece, r.at(r.offset + piece.len())),
        ),
        0 <= r.offset,
        r.offset + piece.len() <= r.buffer.len(),
{
    bytes::lemma_holds_at_room(r.buffer, r.offset, piece);
}

/// A text as it comes back from behind a length byte: what is not ASCII has
/// become a question mark.
pub open spec fn ascii_only(s: Seq<char>) -> Seq<char> {
    Seq::new(
        s.len(),
        |i: int|
            if (s[i] as int) < 128 {
                s[i]
            } else {
                '?'
            },
    )
}

/// A text behind its length byte is read where it was written.
pub proof fn law_pascal_string_round_trip(r: ReaderState, s: Seq<char>, pad_to: int)
    requires
        r.buffer.len() <= usize::MAX,
        pad_to > 0,
        s.len() <= 255,
        bytes::holds_at(r.buffer, r.offset, writer::pascal_bytes(s, pad_to)),
    ensures
        reader::get_pascal_string(r, pad_to) == Ok::<(Seq<char>, ReaderState), ErrorView>(
            (ascii_only(s), r.at(r.offset + writer::pascal_bytes(s, pad_to).len())),
        ),
{
    let head = seq![s.len() as u8];
    let body = Seq::new(s.len(), |i: int| writer::pascal_byte(s[i]));
    let pad = bytes::zeros(bytes::padding(s.len() as int + 1, pad_to));
    bytes::lemma_holds_at_split(r.buffer, r.offset, head + body, pad);
    bytes::lemma_holds_at_split(r.buffer, r.offset, head, body);
    law_uint8_round_trip(r, s.len() as u8);
    let r1 = r.at(r.offset + 1);
    law_bytes_round_trip(r1, body);
    assert forall|i: int| 0 <= i < s.len() implies text::latin1(body)[i] == ascii_only(s)[i] by {
        text::lemma_char_code(s[i]);
    }
    assert(text::latin1(body) =~= ascii_only(s));
}

/// A text behind its length byte, read without its padding.
pub proof fn lemma_pascal_unpadded(r: ReaderState, s: Seq<char>, pad_to: int)
    requires
        r.buffer.len() <= usize::MAX,
        pad_to > 0,
        s.len() <= 255,
        bytes::holds_at(r.buffer, r.offset, writer::pascal_bytes(s, pad_to)),
    ensures
        reader::get_pascal_string(r, 1) == Ok::<(Seq<char>, ReaderState), ErrorView>(
            (ascii_only(s), r.at(r.offset + 1 + s.len())),
        ),
{
    let head = seq![s.len() as u8];
    let body = Seq::new(s.len(), |i: int| writer::pascal_byte(s[i]));
    let pad = bytes::zeros(bytes::padding(s.len() as int + 1, pad_to));
    bytes::lemma_holds_at_split(r.buffer, r.offset, head + body, pad);
    assert(writer::pascal_bytes(s, 1) =~= head + body);
    law_pascal_string_round_trip(r, s, 1);
}

proof fn lemma_unit_at(s: Seq<u8>, at: int, units: Seq<u16>, i: int, le: bool)
    requires
        bytes::holds_at(s, at, writer::unit_bytes(units, le)),
        0 <= i < units.len(),
    ensures
        le ==> bytes::u16_le_at(s, at + 2 * i) == units[i],
        !le ==> bytes::u16_at(s, at + 2 * i) == units[i],
{
    reveal(bytes::u16_bytes);
    reveal(bytes::u16_le_bytes);
    reveal(bytes::u16_at);
    reveal(bytes::u16_le_at);
    bytes::lemma_holds_at_room(s, at, writer::unit_bytes(units, le));
    let code = writer::unit_bytes(units, le);
    bytes::lemma_holds_at_index(s, at, code, 2 * i);
    bytes::lemma_holds_at_index(s, at, code, 2 * i + 1);
    assert((2 * i) / 2 == i && (2 * i) % 2 == 0);
    assert((2 * i + 1) / 2 == i && (2 * i + 1) % 2 == 1);
}

/// The code units of a text are read where they were written; a zero at their
/// end is not part of the text.
pub proof fn lemma_units_read_back(r: ReaderState, units: Seq<u16>, le: bool)
    requires
        bytes::holds_at(r.buffer, r.offset, writer::unit_bytes(units, le)),
    ensures
        reader::get_unicode_text(r, units.len() as int, le) == Ok::<
            (Seq<char>, ReaderState),
            ErrorView,
        >(
            (
                text::utf16_decoded(
                    if units.len() > 0 && units.last() == 0 {
                        units.drop_last()
                    } else {
                        units
                    },
                ),
                r.at(r.offset + 2 * units.len()),
            ),
        ),
{
    bytes::lemma_holds_at_room(r.buffer, r.offset, writer::unit_bytes(units, le));
    let n = units.len() as int;
    let read = Seq::new(
        n as nat,
        |i: int|
            if le {
                bytes::u16_le_at(r.buffer, r.offset + 2 * i)
            } else {
                bytes::u16_at(r.buffer, r.offset + 2 * i)
            },
    );
    assert forall|i: int| 0 <= i < n implies #[trigger] read[i] == units[i] by {
        lemma_unit_at(r.buffer, r.offset, units, i, le);
    }
    assert(read =~= units);
}

proof fn lemma_utf16_last(s: Seq<char>)
    requires
        s.len() > 0,
    ensures
        text::utf16(s).len() > 0,
        (text::utf16(s).last() == 0) == (s.last() == '\0'),
    decreases s.len(),
{
    let head = text::char_units(s[0]);
    text::lemma_char_code(s[0]);
    if s.len() > 1 {
        lemma_utf16_last(s.skip(1));
        assert(s.skip(1).last() == s.last());
        assert((head + text::utf16(s.skip(1))).last() == text::utf16(s.skip(1)).last());
    } else {
        assert(s.skip(1) =~= Seq::<char>::empty());
        assert(text::utf16(s.skip(1)) =~= Seq::<u16>::empty());
        assert(text::utf16(s) =~= head);
    }
}

/// A text of UTF-16 code units is read where it was written, where it does not
/// end with a zero character.
pub proof fn law_unicode_string_round_trip(r: ReaderState, s: Seq<char>)
    requires
        bytes::holds_at(r.buffer, r.offset, writer::unicode_string_bytes(s)),
        text::utf16(s).len() < 0x1_0000_0000,
        s.len() == 0 || s.last() != '\0',
    ensures
        reader::get_unicode_string(r) == Ok::<(Seq<char>, ReaderState), ErrorView>(
            (s, r.at(r.offset + writer::unicode_string_bytes(s).len())),
        ),
{
    let units = text::utf16(s);
    let head = bytes::u32_bytes(writer::low32(units.len() as int));
    let body = writer::unit_bytes(units, false);
    bytes::lemma_holds_at_split(r.buffer, r.offset, head, body);
    law_uint32_round_trip(r, units.len() as u32);
    lemma_units_read_back(r.at(r.offset + 4), units, false);
    if s.len() > 0 {
        lemma_utf16_last(s);
    }
    text::law_utf16_round_trip(s);
}

/// A text of UTF-16 code units with a zero behind it is read where it was written.
pub proof fn law_padded_unicode_string_round_trip(r: ReaderState, s: Seq<char>)
    requires
        bytes::holds_at(r.buffer, r.offset, writer::padded_unicode_string_bytes(s)),
        text::utf16(s).len() + 1 < 0x1_0000_0000,
    ensures
        reader::get_unicode_string(r) == Ok::<(Seq<char>, ReaderState), ErrorView>(
            (s, r.at(r.offset + writer::padded_unicode_string_bytes(s).len())),
        ),
{
    reveal(bytes::u16_bytes);
    let units = text::utf16(s);
    let all = units.push(0);
    let head = bytes::u32_bytes(writer::low32(units.len() as int + 1));
    assert(writer::unit_bytes(all, false) =~= writer::unit_bytes(units, false) + bytes::u16_bytes(0));
    assert(writer::padded_unicode_string_bytes(s) =~= head + writer::unit_bytes(all, false));
    bytes::lemma_holds_at_split(r.buffer, r.offset, head, writer::unit_bytes(all, false));
    law_uint32_round_trip(r, all.len() as u32);
    lemma_units_read_back(r.at(r.offset + 4), all, false);
    assert(all.drop_last() =~= units);
    text::law_utf16_round_trip(s);
}

/// Four ASCII characters.
pub open spec fn is_ascii_signature(s: Seq<char>) -> bool {
    s.len() == 4 && forall|i: int| 0 <= i < 4 ==> (#[trigger] s[i] as int) < 128
}

/// The bytes of four ASCII characters are their codes.
pub proof fn lemma_signature_bytes(s: Seq<char>)
    requires
        is_ascii_signature(s),
    ensures
        vstd::utf8::encode_utf8(s).len() == 4,
        text::latin1(vstd::utf8::encode_utf8(s)) == s,
{
    utf8::law_utf8_is_standard(s);
    reveal_with_fuel(utf8::utf8_bytes, 5);
    let a = s.drop_last();
    let b = a.drop_last();
    let c = b.drop_last();
    assert(c.drop_last() =~= Seq::<char>::empty());
    text::lemma_char_code(s[0]);
    text::lemma_char_code(s[1]);
    text::lemma_char_code(s[2]);
    text::lemma_char_code(s[3]);
    let code = utf8::utf8_bytes(s);
    assert(code =~= seq![s[0] as u8, s[1] as u8, s[2] as u8, s[3] as u8]);
    assert(text::latin1(code) =~= s);
}

/// A signature of four ASCII characters is accepted where it was written.
pub proof fn law_signature_round_trip(r: ReaderState, s: Seq<char>, other: Option<Seq<char>>)
    requires
        is_ascii_signature(s),
        bytes::holds_at(r.buffer, r.offset, vstd::utf8::encode_utf8(s)),
    ensures
        reader::get_signature(r) == Ok::<(Seq<char>, ReaderState), ErrorView>(
            (s, r.at(r.offset + 4)),
        ),
        reader::expect_signature(r, s, other) == Ok::<((), ReaderState), ErrorView>(
            ((), r.at(r.offset + 4)),
        ),
{
    lemma_signature_bytes(s);
    law_bytes_round_trip(r, vstd::utf8::encode_utf8(s));
}

/// The length that a section states.
pub open spec fn stated_length(body: Seq<u8>, round: int, total: bool) -> int {
    if total {
        body.len() + bytes::padding(body.len() as int, round)
    } else {
        body.len() as int
    }
}

/// How many bytes the length of a section takes.
pub open spec fn length_size(large: bool) -> int {
    if large {
        8
    } else {
        4
    }
}

/// The inside of a section, and where it ends, are read where they were written.
pub proof fn law_section_round_trip(
    r: ReaderState,
    body: Seq<u8>,
    round: int,
    total: bool,
    large: bool,
    skip_empty: bool,
)
    requires
        r.buffer.len() <= usize::MAX,
        round > 0,
        stated_length(body, round, total) < 0x1_0000_0000,
        bytes::holds_at(r.buffer, r.offset, writer::section_bytes(body, round, total, large)),
    ensures
        ({
            let start = r.offset + length_size(large);
            let length = stated_length(body, round, total);
            let section = Section { length: length as usize, end: (start + length) as usize };
            &&& reader::open_section(r, skip_empty, large) == Ok::<
                (Option<Section>, ReaderState),
                ErrorView,
            >(
                (
                    if length == 0 && skip_empty {
                        None
                    } else {
                        Some(section)
                    },
                    r.at(start),
                ),
            )
            &&& bytes::holds_at(r.buffer, start, body)
            &&& start + length <= r.buffer.len()
            &&& writer::section_bytes(body, round, total, large).len() == length_size(large)
                + body.len() + bytes::padding(body.len() as int, round)
            &&& reader::close_section(r.at(start + length), section, round) == Ok::<
                ((), ReaderState),
                ErrorView,
            >(((), r.at(r.offset + writer::section_bytes(body, round, total, large).len())))
        }),
{
    let prefix = writer::section_prefix(large);
    let pad = bytes::padding(body.len() as int, round);
    assert(0 <= pad < round) by (nonlinear_arith)
        requires
            round > 0,
            pad == (if body.len() as int % round == 0 {
                0
            } else {
                round - body.len() as int % round
            }),
    ;
    let length = stated_length(body, round, total);
    let head = bytes::u32_bytes(writer::low32(length));
    let all = writer::section_bytes(body, round, total, large);
    bytes::lemma_holds_at_split(r.buffer, r.offset, prefix + head + body, bytes::zeros(pad));
    bytes::lemma_holds_at_split(r.buffer, r.offset, prefix + head, body);
    bytes::lemma_holds_at_split(r.buffer, r.offset, prefix, head);
    if large {
        assert(bytes::u32_bytes(0) =~= bytes::zeros(4)) by {
            reveal(bytes::u32_bytes);
        }
        law_uint32_round_trip(r, 0);
        law_uint32_round_trip(r.at(r.offset + 4), length as u32);
    } else {
        law_uint32_round_trip(r, length as u32);
    }
    if total {
        lemma_padded(body.len() as int, round);
    }
}

proof fn lemma_padded(n: int, round: int)
    requires
        n >= 0,
        round > 0,
    ensures
        (n + bytes::padding(n, round)) % round == 0,
{
    let rest = n % round;
    vstd::arithmetic::div_mod::lemma_fundamental_div_mod(n, round);
    if rest != 0 {
        let q = n / round;
        assert(n + (round - rest) == round * (q + 1)) by (nonlinear_arith)
            requires
                n == round * q + rest,
        ;
        vstd::arithmetic::div_mod::lemma_mod_multiples_basic(q + 1, round);
        assert(round * (q + 1) == (q + 1) * round) by (nonlinear_arith);
    }
}

} // verus!
