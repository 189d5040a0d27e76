//! What the helpers of bitmaps do to each pixel, and what room they take.

use vstd::prelude::*;

use crate::budget;
use crate::bytes;
use crate::error;
use crate::error::ErrorView;
use crate::number_laws;
use crate::number_laws::{moved_to, number16, spells};
use crate::pixels;
use crate::reader;
use crate::reader::ReaderState;
use crate::rle;
use crate::text;
use crate::value_laws::digits_of;
use crate::writer;

verus! {

broadcast use crate::bytes::group_bytes;

/// A gray pixel has its red as its green and blue; its opacity and all that lies behind
/// the pixels stay.
pub proof fn law_gray(data: Seq<u8>, count: int)
    requires
        0 <= count,
        4 * count <= data.len(),
    ensures
        ({
            let after = pixels::grayed(data, 4 * count);
            &&& after.len() == data.len()
            &&& forall|k: int|
                #![trigger after[4 * k]]
                0 <= k < count ==> after[4 * k] == data[4 * k] && after[4 * k + 1] == data[4 * k]
                    && after[4 * k + 2] == data[4 * k] && after[4 * k + 3] == data[4 * k + 3]
            &&& forall|i: int| 4 * count <= i < data.len() ==> #[trigger] after[i] == data[i]
        }),
{
    let after = pixels::grayed(data, 4 * count);
    assert forall|k: int|
        #![trigger after[4 * k]]
        0 <= k < count implies after[4 * k] == data[4 * k] && after[4 * k + 1] == data[4 * k]
        && after[4 * k + 2] == data[4 * k] && after[4 * k + 3] == data[4 * k + 3] by {
        assert((4 * k) % 4 == 0 && (4 * k + 1) % 4 == 1 && (4 * k + 2) % 4 == 2 && (4 * k + 3) % 4
            == 3);
    }
}

/// The last sample of each pixel, of four or of five samples, becomes opaque; the others
/// stay.
pub proof fn law_opaque(data: Seq<u8>, step: int, k: int, c: int)
    requires
        step == 4 || step == 5,
        0 <= k,
        0 <= c < step,
        step * k + c < data.len(),
    ensures
        pixels::opaque(data, step).len() == data.len(),
        pixels::opaque(data, step)[step * k + c] == (if c == step - 1 {
            255u8
        } else {
            data[step * k + c]
        }),
{
    assert((step * k + c) % step == c) by (nonlinear_arith)
        requires
            step == 4 || step == 5,
            0 <= c < step,
    ;
    assert(0 <= step * k) by (nonlinear_arith)
        requires
            0 <= k,
            step == 4 || step == 5,
    ;
}

/// A channel that is taken out of pixels has the sample of each, in their order. There is
/// none without pixels, or where some are missing.
pub proof fn law_channel_taken(data: Seq<u8>, offset: int, count: int)
    requires
        0 <= offset < 4,
    ensures
        match pixels::raw_channel(data, offset, count) {
            Some(found) => {
                &&& 0 < count == found.len()
                &&& 4 * (count - 1) + offset < data.len()
                &&& forall|k: int| 0 <= k < count ==> #[trigger] found[k] == data[4 * k + offset]
            },
            None => count <= 0 || 4 * (count - 1) + offset >= data.len(),
        },
{
}

/// The room for a coded channel: in each row two bytes for its length, or four in the
/// large format, and two for each sample; as much for every row and every channel.
pub proof fn law_scratch(width: int, height: int, channels: int)
    ensures
        rle::scratch_size(width, 1, 1, false) == 2 * width + 2,
        rle::scratch_size(width, 1, 1, true) == 2 * width + 4,
        rle::scratch_size(width, height, channels, false) == channels * height * (2 * width + 2),
        rle::scratch_size(width, height, channels, true) == channels * height * (2 * width + 4),
{
    assert(1 * (1 * (2 + 2 * width)) == 2 * width + 2) by (nonlinear_arith);
    assert(1 * (1 * (4 + 2 * width)) == 2 * width + 4) by (nonlinear_arith);
    assert(channels * (height * (2 + 2 * width)) == channels * height * (2 * width + 2))
        by (nonlinear_arith);
    assert(channels * (height * (4 + 2 * width)) == channels * height * (2 * width + 4))
        by (nonlinear_arith);
}

/// A block starts where the buffer spells `8BIM` or `8B64`.
pub proof fn law_block_start(s: Seq<u8>, at: int)
    requires
        0 <= at,
    ensures
        reader::block_signature_at(s, at) <==> at + 4 <= s.len() && (spells(
            s,
            at,
            seq!['8', 'B', 'I', 'M'],
        ) || spells(s, at, seq!['8', 'B', '6', '4'])),
{
    let a = seq!['8', 'B', 'I', 'M'];
    let b = seq!['8', 'B', '6', '4'];
    assert(a[0] as int == 56 && a[1] as int == 66 && a[2] as int == 73 && a[3] as int == 77);
    assert(b[0] as int == 56 && b[1] as int == 66 && b[2] as int == 54 && b[3] as int == 52);
    if at + 4 <= s.len() {
        assert(spells(s, at, a) ==> s[at + 0] == 56 && s[at + 1] == 66 && s[at + 2] == 73 && s[at
            + 3] == 77);
        assert(spells(s, at, b) ==> s[at + 0] == 56 && s[at + 1] == 66 && s[at + 2] == 54 && s[at
            + 3] == 52);
        if reader::block_signature_at(s, at) {
            assert(s[at + 2] == 73 ==> spells(s, at, a));
            assert(s[at + 2] == 54 ==> spells(s, at, b));
        }
    }
}

/// A signature is accepted where the buffer spells one of those that are expected, and
/// otherwise refused with what the buffer spells and where.
pub proof fn law_signature_checked(r: ReaderState, a: Seq<char>, b: Option<Seq<char>>)
    requires
        0 <= r.offset,
        r.offset + 4 <= r.buffer.len(),
        a.len() == 4,
        b matches Some(other) ==> other.len() == 4,
    ensures
        match reader::expect_signature(r, a, b) {
            Ok((_, after)) => moved_to(r, after, r.offset + 4) && (spells(r.buffer, r.offset, a) || (
            b matches Some(other) && spells(r.buffer, r.offset, other))),
            Err(e) => !spells(r.buffer, r.offset, a) && (b matches Some(other) ==> !spells(
                r.buffer,
                r.offset,
                other,
            )) && (e matches ErrorView::InvalidSignature { signature, offset } && signature.len()
                == 4 && spells(r.buffer, r.offset, signature) && offset == r.offset),
        },
{
    number_laws::law_short_text_read(r, 4);
    let found = reader::get_signature(r)->Ok_0.0;
    lemma_same_spelling(r.buffer, r.offset, found, a);
    if b is Some {
        lemma_same_spelling(r.buffer, r.offset, found, b->Some_0);
    }
}

proof fn lemma_same_spelling(s: Seq<u8>, at: int, found: Seq<char>, other: Seq<char>)
    requires
        found.len() == 4,
        other.len() == 4,
        spells(s, at, found),
    ensures
        spells(s, at, other) <==> found == other,
{
    if spells(s, at, other) {
        assert forall|k: int| 0 <= k < 4 implies found[k] == other[k] by {
            assert(s[at + k] as int == found[k] as int);
            assert(s[at + k] as int == other[k] as int);
        }
        assert(found =~= other);
    }
}

/// Characters are written as bytes with the lower eight bits of their codes; code units of
/// two bytes with the more significant first, or the other way round.
pub proof fn law_characters_written(s: Seq<char>, units: Seq<u16>)
    ensures
        writer::char_bytes(s).len() == s.len(),
        forall|i: int|
            0 <= i < s.len() ==> #[trigger] writer::char_bytes(s)[i] == s[i] as int % 256,
        writer::unit_bytes(units, false).len() == 2 * units.len(),
        writer::unit_bytes(units, true).len() == 2 * units.len(),
        forall|i: int|
            0 <= i < units.len() ==> number16(writer::unit_bytes(units, false), 2 * i)
                == #[trigger] units[i] && writer::unit_bytes(units, true)[2 * i] + 256
                * writer::unit_bytes(units, true)[2 * i + 1] == units[i],
{
    assert forall|i: int| 0 <= i < units.len() implies number16(
        writer::unit_bytes(units, false),
        2 * i,
    ) == #[trigger] units[i] && writer::unit_bytes(units, true)[2 * i] + 256 * writer::unit_bytes(
        units,
        true,
    )[2 * i + 1] == units[i] by {
        reveal(bytes::u16_bytes);
        reveal(bytes::u16_le_bytes);
        assert((2 * i) / 2 == i && (2 * i + 1) / 2 == i && (2 * i) % 2 == 0 && (2 * i + 1) % 2 == 1);
    }
}

/// Bytes are taken from a memory limit where it still has them, and then it has as many
/// less; without a limit only what a machine can hold is too much.
pub proof fn law_memory_taken(limit: Option<usize>, size: int)
    requires
        0 <= size,
    ensures
        match (limit, budget::charged(limit, size)) {
            (Some(n), Ok(Some(left))) => size <= n && left == n - size,
            (Some(n), Err(e)) => size > n && (e matches ErrorView::ExceededMemoryLimit {
                requested,
                available,
            } && available == n && (size <= usize::MAX ==> requested == size)),
            (None, Ok(None)) => size <= usize::MAX,
            (None, Err(e)) => size > usize::MAX && e is ExceededMemoryLimit,
            _ => false,
        },
{
}

/// A reader begins at the start of its buffer, forgives what it can, and may take two
/// gibibytes of memory.
pub proof fn law_new_reader(buffer: Seq<u8>)
    ensures
        ({
            let r = reader::new_reader_state(buffer);
            &&& r.buffer == buffer
            &&& r.offset == 0
            &&& !r.strict && !r.debug && !r.large && !r.global_alpha
            &&& r.budget matches Some(n) && n == 2147483648
            &&& r.options.total_memory_limit matches Some(n) && n == 2147483648
            &&& r.options.skip_layer_image_data is None && r.options.skip_thumbnail is None
            &&& r.options.skip_composite_image_data is None && r.options.use_image_data is None
            &&& r.options.use_raw_data is None && r.options.strict is None
            &&& r.options.throw_for_missing_features is None && r.options.debug is None
        }),
{
}

/// The digits show a number, with a minus sign in front where it is negative.
pub open spec fn shows(s: Seq<char>, n: int) -> bool {
    if n < 0 {
        s.len() > 0 && s[0] == '-' && digits_of(s.skip(1), 10, -n)
    } else {
        digits_of(s, 10, n)
    }
}

/// What the message of an error says of its numbers: of a rectangle first the width and
/// then the height, of memory first what was asked for and then what there was, of a
/// signature the place of it in hexadecimal digits.
pub proof fn law_error_numbers(e: ErrorView)
    ensures
        match e {
            ErrorView::InvalidBoxSize { kind, width, height } => {
                let a = text::signed_decimal(width);
                let b = text::signed_decimal(height);
                &&& error::error_message(e) == "Invalid "@ + kind + " size: "@ + a + "x"@ + b
                &&& shows(a, width)
                &&& shows(b, height)
            },
            ErrorView::ExceededMemoryLimit { requested, available } => requested >= 0 && available
                >= 0 ==> {
                let a = text::decimal(requested);
                let b = text::decimal(available);
                &&& error::error_message(e) == "Exceeded memory limit: "@ + a
                    + " bytes requested, "@ + b + " available"@
                &&& shows(a, requested)
                &&& shows(b, available)
            },
            ErrorView::InvalidSignature { signature, offset } => offset >= 0 ==> {
                let a = text::hexadecimal(offset);
                &&& error::error_message(e) == "Invalid signature: '"@ + text::escaped(signature)
                    + "' at 0x"@ + a
                &&& digits_of(a, 16, offset)
            },
            ErrorView::StrictViolation(message) => error::error_message(e) == message,
            ErrorView::UnexpectedEndOfBuffer => error::error_message(e)
                == "Reading bytes exceeding buffer length"@,
            ErrorView::ReadingPastEndOfFile => error::error_message(e)
                == "Reading past end of file"@,
            ErrorView::SizeTooLarge => error::error_message(e)
                == "Sizes larger than 4GB are not supported"@,
            ErrorView::SectionExceedsFileSize => error::error_message(e)
                == "Section exceeds file size"@,
        },
{
    match e {
        ErrorView::InvalidBoxSize { width, height, .. } => {
            lemma_shows(width);
            lemma_shows(height);
        },
        ErrorView::ExceededMemoryLimit { requested, available } => {
            if requested >= 0 && available >= 0 {
                lemma_shows(requested);
                lemma_shows(available);
            }
        },
        ErrorView::InvalidSignature { offset, .. } => {
            if offset >= 0 {
                crate::value_laws::law_digits(offset);
            }
        },
        _ => {},
    }
}

proof fn lemma_shows(n: int)
    ensures
        shows(text::signed_decimal(n), n),
{
    if n < 0 {
        crate::value_laws::law_digits(-n);
        assert(text::signed_decimal(n).skip(1) =~= text::decimal(-n));
    } else {
        crate::value_laws::law_digits(n);
    }
}

/// A control character stands in a message by its number in hexadecimal digits between
/// braces; every other character stands for itself.
pub proof fn law_escaped(s: Seq<char>, c: char)
    ensures
        text::escaped(Seq::empty()) == Seq::<char>::empty(),
        ({
            let code = c as int;
            let tail = text::escaped(s.push(c)).skip(text::escaped(s).len() as int);
            &&& text::escaped(s.push(c)) == text::escaped(s) + tail
            &&& if code < 32 || 127 <= code <= 159 {
                &&& tail.len() > 4
                &&& tail[0] == '\\' && tail[1] == 'u' && tail[2] == '{' && tail.last() == '}'
                &&& digits_of(tail.subrange(3, tail.len() - 1), 16, code)
            } else {
                tail == seq![c]
            }
        }),
{
    let code = c as int;
    text::lemma_char_code(c);
    assert(s.push(c).drop_last() =~= s);
    let one = text::escaped_char(c);
    let tail = text::escaped(s.push(c)).skip(text::escaped(s).len() as int);
    assert(tail =~= one);
    assert(text::escaped(s.push(c)) =~= text::escaped(s) + tail);
    if code < 32 || 127 <= code <= 159 {
        crate::value_laws::law_digits(code);
        assert(tail.subrange(3, tail.len() - 1) =~= text::hexadecimal(code));
    }
}

} // verus!
