//! What the bytes of a colour say: the number of its space, then its samples.

use vstd::prelude::*;

use crate::bytes;
use crate::color;
use crate::number_laws;
use crate::number_laws::{moved_to, number16, signed16};
use crate::psd::Color;
use crate::reader::ReaderState;

verus! {

broadcast use crate::bytes::group_bytes;

/// A colour takes ten bytes: the number of its space, 0 for red, green and blue, 1 for
/// hue, saturation and brightness, 2 for four inks, 7 for lightness and two signed
/// opponent colours, 8 for gray, and behind it the samples in their order. No other
/// number is one of a space.
pub proof fn law_color_read(r: ReaderState)
    requires
        0 <= r.offset,
        r.offset + 10 <= r.buffer.len(),
        r.buffer.len() <= usize::MAX,
    ensures
        ({
            let o = r.offset;
            let s = r.buffer;
            let space = number16(s, o);
            match color::get_color(r) {
                Err(e) => space != 0 && space != 1 && space != 2 && space != 7 && space != 8
                    && e is StrictViolation,
                Ok((found, after)) => {
                    &&& moved_to(r, after, o + 10)
                    &&& match found {
                        Color::Rgb(c) => space == 0 && c.r == number16(s, o + 2) && c.g == number16(
                            s,
                            o + 4,
                        ) && c.b == number16(s, o + 6),
                        Color::Hsb(c) => space == 1 && c.h == number16(s, o + 2) && c.s == number16(
                            s,
                            o + 4,
                        ) && c.b == number16(s, o + 6),
                        Color::Cmyk(c) => space == 2 && c.c == number16(s, o + 2) && c.m
                            == number16(s, o + 4) && c.y == number16(s, o + 6) && c.k == number16(
                            s,
                            o + 8,
                        ),
                        Color::Lab(c) => space == 7 && c.l == signed16(s, o + 2) && c.a == signed16(
                            s,
                            o + 4,
                        ) && c.b == signed16(s, o + 6),
                        Color::Grayscale(c) => space == 8 && c.k == number16(s, o + 2),
                        _ => false,
                    }
                },
            }
        }),
{
    let o = r.offset;
    let s = r.buffer;
    number_laws::lemma_at(s, o);
    number_laws::lemma_at(s, o + 2);
    number_laws::lemma_at(s, o + 4);
    number_laws::lemma_at(s, o + 6);
    number_laws::lemma_at(s, o + 8);
}

/// The five numbers that ten bytes make up.
pub open spec fn five_numbers(s: Seq<u8>, a: int, b: int, c: int, d: int, e: int) -> bool {
    &&& s.len() == 10
    &&& number16(s, 0) == a
    &&& number16(s, 2) == b
    &&& number16(s, 4) == c
    &&& number16(s, 6) == d
    &&& number16(s, 8) == e
}

/// A signed number in 16 bits.
pub open spec fn two_complement(v: i16) -> int {
    if v < 0 {
        v + 65536
    } else {
        v as int
    }
}

/// A colour is written as the number of its space and four samples, of which those that it
/// does not have are zero. No colour is black.
pub proof fn law_color_written(color: Option<Color>)
    ensures
        ({
            let s = color::color_bytes(color);
            match color {
                None => five_numbers(s, 0, 0, 0, 0, 0),
                Some(Color::Rgba(c)) => five_numbers(s, 0, c.r as int, c.g as int, c.b as int, 0),
                Some(Color::Rgb(c)) => five_numbers(s, 0, c.r as int, c.g as int, c.b as int, 0),
                Some(Color::Frgb(c)) => five_numbers(
                    s,
                    0,
                    c.fr as int,
                    c.fg as int,
                    c.fb as int,
                    0,
                ),
                Some(Color::Lab(c)) => five_numbers(
                    s,
                    7,
                    two_complement(c.l),
                    two_complement(c.a),
                    two_complement(c.b),
                    0,
                ),
                Some(Color::Hsb(c)) => five_numbers(s, 1, c.h as int, c.s as int, c.b as int, 0),
                Some(Color::Cmyk(c)) => five_numbers(
                    s,
                    2,
                    c.c as int,
                    c.m as int,
                    c.y as int,
                    c.k as int,
                ),
                Some(Color::Grayscale(c)) => five_numbers(s, 8, c.k as int, 0, 0, 0),
            }
        }),
{
    reveal(bytes::u16_bytes);
}

} // verus!
