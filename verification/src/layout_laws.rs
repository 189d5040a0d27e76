//! Where everything that is said of a layer lies in its record: which bytes are its
//! rectangle, its settings, its masks and its name.

use vstd::prelude::*;

use crate::bytes;
use crate::decode_laws;
use crate::error::ErrorView;
use crate::helpers;
use crate::helpers::Bounds;
use crate::info;
use crate::mask;
use crate::number_laws;
use crate::number_laws::{moved_to, number16, number32, signed16, signed32, spells};
use crate::psd::{AdditionalInfoView, BlendMode, LayerView};
use crate::reader;
use crate::reader::ReaderState;
use crate::record_writer;
use crate::records;
use crate::roundtrip;
use crate::text;

verus! {

broadcast use crate::bytes::group_bytes;

/// A rectangle is four numbers: top, left, bottom, right.
pub open spec fn box_at(s: Seq<u8>, at: int, b: Bounds) -> bool {
    &&& b.top == signed32(s, at)
    &&& b.left == signed32(s, at + 4)
    &&& b.bottom == signed32(s, at + 8)
    &&& b.right == signed32(s, at + 12)
}

/// A rectangle is read as top, left, bottom, right, and refused where it is turned inside
/// out or a side of it is too long.
pub proof fn law_box_read(r: ReaderState, kind: Seq<char>)
    requires
        0 <= r.offset,
    ensures
        match mask::get_box(r, kind) {
            Ok((b, after)) => {
                &&& r.offset + 16 <= r.buffer.len()
                &&& box_at(r.buffer, r.offset, b)
                &&& decode_laws::sides_fit(b.right - b.left, b.bottom - b.top, r.large)
                &&& moved_to(r, after, r.offset + 16)
            },
            Err(e) => if r.offset + 16 > r.buffer.len() {
                e is UnexpectedEndOfBuffer
            } else {
                let width = signed32(r.buffer, r.offset + 12) - signed32(r.buffer, r.offset + 4);
                let height = signed32(r.buffer, r.offset + 8) - signed32(r.buffer, r.offset);
                !decode_laws::sides_fit(width, height, r.large) && e
                    == (ErrorView::InvalidBoxSize { kind, width, height })
            },
        },
{
    number_laws::law_long_numbers_read(r);
    number_laws::law_long_numbers_read(r.at(r.offset + 4));
    number_laws::law_long_numbers_read(r.at(r.offset + 8));
    number_laws::law_long_numbers_read(r.at(r.offset + 12));
}

/// A rectangle is written as top, left, bottom, right.
pub proof fn law_box_written(b: Bounds)
    ensures
        mask::bounds_bytes(b).len() == 16,
        box_at(mask::bounds_bytes(b), 0, b),
{
    let code = mask::bounds_bytes(b);
    let top = bytes::u32_bytes(bytes::i32_bits(b.top));
    let left = bytes::u32_bytes(bytes::i32_bits(b.left));
    let bottom = bytes::u32_bytes(bytes::i32_bits(b.bottom));
    let right = bytes::u32_bytes(bytes::i32_bits(b.right));
    lemma_signed_written(code, 0, b.top);
    lemma_signed_written(code, 4, b.left);
    lemma_signed_written(code, 8, b.bottom);
    lemma_signed_written(code, 12, b.right);
}

/// Where the four bytes of a signed number lie, that number lies.
pub proof fn lemma_signed_written(s: Seq<u8>, at: int, v: i32)
    requires
        0 <= at,
        at + 4 <= s.len(),
        forall|k: int|
            0 <= k < 4 ==> s[at + k] == #[trigger] bytes::u32_bytes(bytes::i32_bits(v))[k],
    ensures
        signed32(s, at) == v,
{
    let code = bytes::u32_bytes(bytes::i32_bits(v));
    number_laws::lemma_u32_written(bytes::i32_bits(v));
    assert(s[at + 0] == code[0] && s[at + 1] == code[1] && s[at + 2] == code[2] && s[at + 3]
        == code[3]);
    assert(number32(s, at) == number32(code, 0));
}

/// The bit of a flag is set.
pub open spec fn flag(f: u8, bit: u8) -> bool {
    f & bit != 0
}

pub proof fn lemma_flags(f: u8)
    ensures
        mask::bit_set(f, 1) == flag(f, 1),
        mask::bit_set(f, 2) == flag(f, 2),
        mask::bit_set(f, 4) == flag(f, 4),
        mask::bit_set(f, 8) == flag(f, 8),
        mask::bit_set(f, 16) == flag(f, 16),
        mask::bit_set(f, 32) == flag(f, 32),
{
    reveal(mask::bit_set);
    assert(((f / 1) % 2 == 1) == (f & 1 != 0) && ((f / 2) % 2 == 1) == (f & 2 != 0) && ((f / 4) % 2
        == 1) == (f & 4 != 0) && ((f / 8) % 2 == 1) == (f & 8 != 0) && ((f / 16) % 2 == 1) == (f
        & 16 != 0) && ((f / 32) % 2 == 1) == (f & 32 != 0)) by (bit_vector);
}

/// The four letters that stand for a blend mode.
pub open spec fn mode_letters(mode: BlendMode) -> Seq<char> {
    match mode {
        BlendMode::PassThrough => seq!['p', 'a', 's', 's'],
        BlendMode::Normal => seq!['n', 'o', 'r', 'm'],
        BlendMode::Dissolve => seq!['d', 'i', 's', 's'],
        BlendMode::Darken => seq!['d', 'a', 'r', 'k'],
        BlendMode::Multiply => seq!['m', 'u', 'l', ' '],
        BlendMode::ColorBurn => seq!['i', 'd', 'i', 'v'],
        BlendMode::LinearBurn => seq!['l', 'b', 'r', 'n'],
        BlendMode::DarkerColor => seq!['d', 'k', 'C', 'l'],
        BlendMode::Lighten => seq!['l', 'i', 't', 'e'],
        BlendMode::Screen => seq!['s', 'c', 'r', 'n'],
        BlendMode::ColorDodge => seq!['d', 'i', 'v', ' '],
        BlendMode::LinearDodge => seq!['l', 'd', 'd', 'g'],
        BlendMode::LighterColor => seq!['l', 'g', 'C', 'l'],
        BlendMode::Overlay => seq!['o', 'v', 'e', 'r'],
        BlendMode::SoftLight => seq!['s', 'L', 'i', 't'],
        BlendMode::HardLight => seq!['h', 'L', 'i', 't'],
        BlendMode::VividLight => seq!['v', 'L', 'i', 't'],
        BlendMode::LinearLight => seq!['l', 'L', 'i', 't'],
        BlendMode::PinLight => seq!['p', 'L', 'i', 't'],
        BlendMode::HardMix => seq!['h', 'M', 'i', 'x'],
        BlendMode::Difference => seq!['d', 'i', 'f', 'f'],
        BlendMode::Exclusion => seq!['s', 'm', 'u', 'd'],
        BlendMode::Subtract => seq!['f', 's', 'u', 'b'],
        BlendMode::Divide => seq!['f', 'd', 'i', 'v'],
        BlendMode::Hue => seq!['h', 'u', 'e', ' '],
        BlendMode::Saturation => seq!['s', 'a', 't', ' '],
        BlendMode::Color => seq!['c', 'o', 'l', 'r'],
        BlendMode::Luminosity => seq!['l', 'u', 'm', ' '],
    }
}

/// Every blend mode has its letters, and what has no such letters is no blend mode.
pub proof fn law_blend_letters(mode: BlendMode, key: Seq<char>)
    ensures
        helpers::blend_key(mode) == mode_letters(mode),
        helpers::blend_mode_of(mode_letters(mode)) == Some(mode),
        match helpers::blend_mode_of(key) {
            Some(found) => key == mode_letters(found),
            None => key != mode_letters(mode),
        },
{
    lemma_letters(mode);
    helpers::law_blend_mode_round_trip(mode);
    match helpers::blend_mode_of(key) {
        Some(found) => {
            lemma_letters(found);
        },
        None => {
            assert(helpers::blend_key(mode) != key);
        },
    }
}

proof fn lemma_letters(mode: BlendMode)
    ensures
        helpers::blend_key(mode) == mode_letters(mode),
{
    match mode {
        BlendMode::PassThrough => reveal_strlit("pass"),
        BlendMode::Normal => reveal_strlit("norm"),
        BlendMode::Dissolve => reveal_strlit("diss"),
        BlendMode::Darken => reveal_strlit("dark"),
        BlendMode::Multiply => reveal_strlit("mul "),
        BlendMode::ColorBurn => reveal_strlit("idiv"),
        BlendMode::LinearBurn => reveal_strlit("lbrn"),
        BlendMode::DarkerColor => reveal_strlit("dkCl"),
        BlendMode::Lighten => reveal_strlit("lite"),
        BlendMode::Screen => reveal_strlit("scrn"),
        BlendMode::ColorDodge => reveal_strlit("div "),
        BlendMode::LinearDodge => reveal_strlit("lddg"),
        BlendMode::LighterColor => reveal_strlit("lgCl"),
        BlendMode::Overlay => reveal_strlit("over"),
        BlendMode::SoftLight => reveal_strlit("sLit"),
        BlendMode::HardLight => reveal_strlit("hLit"),
        BlendMode::VividLight => reveal_strlit("vLit"),
        BlendMode::LinearLight => reveal_strlit("lLit"),
        BlendMode::PinLight => reveal_strlit("pLit"),
        BlendMode::HardMix => reveal_strlit("hMix"),
        BlendMode::Difference => reveal_strlit("diff"),
        BlendMode::Exclusion => reveal_strlit("smud"),
        BlendMode::Subtract => reveal_strlit("fsub"),
        BlendMode::Divide => reveal_strlit("fdiv"),
        BlendMode::Hue => reveal_strlit("hue "),
        BlendMode::Saturation => reveal_strlit("sat "),
        BlendMode::Color => reveal_strlit("colr"),
        BlendMode::Luminosity => reveal_strlit("lum "),
    }
    assert(helpers::blend_key(mode) =~= mode_letters(mode));
}

/// How many bytes a channel takes in the record of a layer.
pub open spec fn channel_step(large: bool) -> int {
    if large {
        10
    } else {
        6
    }
}

proof fn lemma_channel_infos(r: ReaderState, n: int)
    requires
        0 <= r.offset,
        0 <= n,
    ensures
        match records::get_channel_infos(r, n) {
            Ok((found, after)) => {
                let e = channel_step(r.large);
                &&& found.len() == n
                &&& moved_to(r, after, r.offset + e * n)
                &&& 0 <= e * n
                &&& n > 0 ==> r.offset + e * n <= r.buffer.len()
                &&& forall|k: int|
                    0 <= k < n ==> (#[trigger] found[k]).id == signed16(
                        r.buffer,
                        r.offset + e * k,
                    ) && found[k].length == number32(r.buffer, r.offset + e * k + e - 4) && (
                    r.large ==> number32(r.buffer, r.offset + e * k + 2) == 0)
            },
            Err(_) => true,
        },
    decreases n,
{
    if n > 0 {
        lemma_channel_infos(r, n - 1);
        match records::get_channel_infos(r, n - 1) {
            Err(_) => {},
            Ok((infos, r1)) => {
                let e = channel_step(r.large);
                assert(e * n == e * (n - 1) + e) by (nonlinear_arith);
                assert(0 <= e * (n - 1)) by (nonlinear_arith)
                    requires
                        0 <= n - 1,
                        e >= 0,
                ;
                number_laws::law_short_numbers_read(r1);
                number_laws::law_long_numbers_read(r1.at(r1.offset + 2));
                number_laws::law_long_numbers_read(r1.at(r1.offset + 6));
                match records::get_channel_info(r1) {
                    Err(_) => {},
                    Ok((i, r2)) => {
                        assert(i.id == signed16(r.buffer, r.offset + e * (n - 1)));
                        assert(i.length == number32(r.buffer, r.offset + e * (n - 1) + e - 4));
                        assert(infos.push(i)[n - 1] == i);
                        assert forall|k: int| 0 <= k < n - 1 implies infos.push(i)[k]
                            == #[trigger] infos[k] by {}
                    },
                }
            },
        }
    }
}

/// The bytes at a place spell a text of four letters exactly where they are read as it.
pub proof fn lemma_signature_here(r: ReaderState, letters: Seq<char>)
    requires
        0 <= r.offset,
        r.offset + 4 <= r.buffer.len(),
        letters.len() == 4,
    ensures
        reader::get_signature(r) == Ok::<(Seq<char>, ReaderState), ErrorView>(
            (letters, r.at(r.offset + 4)),
        ) ==> spells(r.buffer, r.offset, letters),
        spells(r.buffer, r.offset, letters) ==> reader::get_signature(r) == Ok::<
            (Seq<char>, ReaderState),
            ErrorView,
        >((letters, r.at(r.offset + 4))),
{
    number_laws::law_short_text_read(r, 4);
    let (found, _) = reader::get_signature(r)->Ok_0;
    if spells(r.buffer, r.offset, letters) {
        assert forall|k: int| 0 <= k < 4 implies found[k] == letters[k] by {
            assert(r.buffer[r.offset + k] as int == found[k] as int);
            assert(r.buffer[r.offset + k] as int == letters[k] as int);
        }
        assert(found =~= letters);
    }
}

/// How a layer is blended: `8BIM`, the letters of its blend mode, its opacity, whether it
/// is clipped, its flags and a byte that says nothing.
proof fn lemma_blending(r: ReaderState)
    requires
        0 <= r.offset,
        r.buffer.len() < usize::MAX,
    ensures
        match records::get_blending(r) {
            Ok((b, after)) => {
                &&& r.offset + 11 <= r.buffer.len()
                &&& spells(r.buffer, r.offset, seq!['8', 'B', 'I', 'M'])
                &&& spells(r.buffer, r.offset + 4, mode_letters(b.mode))
                &&& b.opacity == r.buffer[r.offset + 8]
                &&& b.clipping == r.buffer[r.offset + 9]
                &&& b.flags == r.buffer[r.offset + 10]
                &&& moved_to(r, after, r.offset + 12)
            },
            Err(_) => true,
        },
{
    reveal(records::get_blending);
    reveal_strlit("8BIM");
    assert("8BIM"@ =~= seq!['8', 'B', 'I', 'M']);
    match records::get_blend_mode(r) {
        Err(_) => {},
        Ok((mode, r2)) => {
            number_laws::law_short_numbers_read(r2);
            number_laws::law_short_numbers_read(r2.at(r2.offset + 1));
            number_laws::law_short_numbers_read(r2.at(r2.offset + 2));
            if r2.offset + 3 <= r.buffer.len() {
                assert(r.offset + 8 <= r.buffer.len());
                lemma_signature_here(r, seq!['8', 'B', 'I', 'M']);
                let r1 = r.at(r.offset + 4);
                let (key, _) = reader::get_signature(r1)->Ok_0;
                law_blend_letters(mode, key);
                number_laws::law_short_text_read(r1, 4);
            }
        },
    }
}

/// The last part of a record ends where its length says.
proof fn lemma_extra_end(r: ReaderState)
    requires
        0 <= r.offset,
        r.buffer.len() < usize::MAX,
    ensures
        match records::get_extra(r) {
            Ok((i, after)) => {
                &&& r.offset + 4 <= r.buffer.len()
                &&& r.offset + 4 + number32(r.buffer, r.offset) <= r.buffer.len()
                &&& after.offset == r.offset + 4 + number32(r.buffer, r.offset)
            },
            Err(_) => true,
        },
{
    reveal(records::get_extra);
    number_laws::law_long_numbers_read(r);
    if r.offset + 4 <= r.buffer.len() {
        number_laws::law_section_opened(r, true, false);
    }
}

/// What a record says of a layer lies in these bytes: its rectangle; how many channels it
/// has and, for each, its number and its length; `8BIM` and the letters of its blend mode;
/// its opacity; whether it is clipped; its flags; and the length of the rest.
pub proof fn law_record_read(r: ReaderState)
    requires
        0 <= r.offset,
        r.buffer.len() < usize::MAX,
    ensures
        match records::get_record(r) {
            Ok(((l, channels), after)) => {
                let s = r.buffer;
                let o = r.offset;
                let n = number16(s, o + 16);
                let e = channel_step(r.large);
                let b = o + 18 + e * n;
                let f = s[b + 10];
                &&& l.top == Some(signed32(s, o) as i32)
                &&& l.left == Some(signed32(s, o + 4) as i32)
                &&& l.bottom == Some(signed32(s, o + 8) as i32)
                &&& l.right == Some(signed32(s, o + 12) as i32)
                &&& channels.len() == n
                &&& forall|k: int|
                    0 <= k < n ==> (#[trigger] channels[k]).id == signed16(s, o + 18 + e * k)
                        && channels[k].length == number32(s, o + 18 + e * k + e - 4)
                &&& spells(s, b, seq!['8', 'B', 'I', 'M'])
                &&& l.blend_mode is Some
                &&& spells(s, b + 4, mode_letters(l.blend_mode->Some_0))
                &&& l.opacity == Some(s[b + 8])
                &&& l.clipping == Some(s[b + 9] == 1)
                &&& l.transparency_protected == Some(flag(f, 1))
                &&& l.hidden == Some(flag(f, 2))
                &&& l.effects_open == (if flag(f, 32) {
                    Some(true)
                } else {
                    None
                })
                &&& l.opened is None && l.children is None && l.canvas is None
                &&& l.image_data is None && l.raw_data is None
                &&& records::get_extra(r.at(b + 12)) == Ok::<
                    (AdditionalInfoView, ReaderState),
                    ErrorView,
                >((l.additional_info, after))
                &&& after.offset == b + 16 + number32(s, b + 12)
                &&& after.offset <= s.len()
            },
            Err(_) => true,
        },
{
    reveal(records::get_record);
    law_box_read(r, "layer"@);
    let r1 = r.at(r.offset + 16);
    number_laws::law_short_numbers_read(r1);
    if r.offset + 18 <= r.buffer.len() {
        let n = number16(r.buffer, r.offset + 16);
        let r2 = r.at(r.offset + 18);
        lemma_channel_infos(r2, n);
        match records::get_channel_infos(r2, n) {
            Err(_) => {},
            Ok((_, r3)) => {
                lemma_blending(r3);
                match records::get_blending(r3) {
                    Err(_) => {},
                    Ok((blending, r4)) => {
                        lemma_flags(blending.flags);
                        lemma_extra_end(r4);
                    },
                }
            },
        }
    }
}

/// The flags that are written for a layer: a set bit for each of what is true of it.
pub proof fn law_flags_written(l: LayerView)
    ensures
        ({
            let f = record_writer::layer_flags(l);
            &&& flag(f, 1) == (l.transparency_protected == Some(true))
            &&& flag(f, 2) == (l.hidden == Some(true))
            &&& !flag(f, 4)
            &&& flag(f, 8)
            &&& flag(f, 16) == record_writer::pixels_irrelevant(l.additional_info)
            &&& flag(f, 32) == (l.effects_open == Some(true))
            &&& f < 64
        }),
{
    reveal(record_writer::layer_flags);
    let f = record_writer::layer_flags(l);
    let a: u8 = if l.transparency_protected == Some(true) {
        1
    } else {
        0
    };
    let b: u8 = if l.hidden == Some(true) {
        2
    } else {
        0
    };
    let c: u8 = if record_writer::pixels_irrelevant(l.additional_info) {
        16
    } else {
        0
    };
    let d: u8 = if l.effects_open == Some(true) {
        32
    } else {
        0
    };
    assert(f == 8 + a + b + c + d);
    assert((a == 0 || a == 1) && (b == 0 || b == 2) && (c == 0 || c == 16) && (d == 0 || d == 32)
        && f == 8 + a + b + c + d ==> (f & 1 != 0) == (a == 1) && (f & 2 != 0) == (b == 2) && f & 4
        == 0 && f & 8 != 0 && (f & 16 != 0) == (c == 16) && (f & 32 != 0) == (d == 32) && f < 64)
        by (bit_vector);
}

/// What is written of how a layer is blended lies in these bytes.
pub proof fn law_blending_written(l: LayerView)
    ensures
        ({
            let code = record_writer::blending_bytes(l);
            &&& code.len() == 12
            &&& spells(code, 0, seq!['8', 'B', 'I', 'M'])
            &&& spells(
                code,
                4,
                mode_letters(
                    match l.blend_mode {
                        Some(mode) => mode,
                        None => BlendMode::Normal,
                    },
                ),
            )
            &&& code[8] == (match l.opacity {
                Some(opacity) => opacity,
                None => 255,
            })
            &&& code[9] == (if l.clipping == Some(true) {
                1int
            } else {
                0int
            })
            &&& code[10] == record_writer::layer_flags(l)
            &&& code[11] == 0
        }),
{
    reveal(record_writer::blending_bytes);
    let mode = record_writer::written_mode(l);
    let code = record_writer::blending_bytes(l);
    let signature = bytes::u32_bytes(info::SIGNATURE_8BIM);
    law_blend_letters(mode, mode_letters(mode));
    let key = helpers::blend_key(mode);
    helpers::lemma_blend_key(mode);
    roundtrip::lemma_signature_bytes(key);
    reveal(bytes::u32_bytes);
    assert(signature =~= seq![0x38u8, 0x42u8, 0x49u8, 0x4Du8]);
    let letters = seq!['8', 'B', 'I', 'M'];
    assert forall|k: int| 0 <= k < 4 implies code[0 + k] as int
        == #[trigger] letters[k] as int by {
        assert(code[k] == signature[k]);
    }
    let coded = vstd::utf8::encode_utf8(key);
    assert forall|k: int| 0 <= k < 4 implies code[4 + k] as int == #[trigger] mode_letters(
        mode,
    )[k] as int by {
        assert(code[4 + k] == coded[k]);
        assert(text::latin1(coded)[k] == coded[k] as char);
    }
}

} // verus!
