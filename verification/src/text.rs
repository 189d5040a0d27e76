//! Text as the format stores it: Latin-1 bytes, UTF-16 code units, and the
//! decimal numbers that appear in messages.

use vstd::prelude::*;

verus! {

/// std's `String::push` appends one character.
pub assume_specification [String::push](s: &mut String, c: char)
    ensures
        final(s)@ == old(s)@.push(c),
;

/// std's `char::from_u32` accepts exactly the Unicode scalar values.
pub assume_specification [char::from_u32](i: u32) -> (r: Option<char>)
    ensures
        r == (if i <= 0xD7FF || (0xE000 <= i && i <= 0x10FFFF) {
            Some(i as char)
        } else {
            None::<char>
        }),
;

/// Each byte as the character with that code.
pub open spec fn latin1(s: Seq<u8>) -> Seq<char> {
    Seq::new(s.len(), |i: int| s[i] as char)
}

/// The UTF-16 code units of one character.
pub open spec fn char_units(c: char) -> Seq<u16> {
    let code = c as int;
    if code < 0x1_0000 {
        seq![code as u16]
    } else {
        seq![
            (0xD800 + (code - 0x1_0000) / 0x400) as u16,
            (0xDC00 + (code - 0x1_0000) % 0x400) as u16,
        ]
    }
}

/// The UTF-16 code units of a text.
pub open spec fn utf16(s: Seq<char>) -> Seq<u16>
    decreases s.len(),
{
    if s.len() == 0 {
        Seq::empty()
    } else {
        char_units(s[0]) + utf16(s.skip(1))
    }
}

pub open spec fn is_high_surrogate(u: u16) -> bool {
    0xD800 <= u && u <= 0xDBFF
}

pub open spec fn is_low_surrogate(u: u16) -> bool {
    0xDC00 <= u && u <= 0xDFFF
}

/// The character a surrogate pair stands for.
pub open spec fn surrogate_pair(high: u16, low: u16) -> char {
    (0x1_0000 + (high - 0xD800) * 0x400 + (low - 0xDC00)) as char
}

/// The text that UTF-16 code units stand for; a surrogate without its partner
/// stands for U+FFFD.
pub open spec fn utf16_decoded(units: Seq<u16>) -> Seq<char>
    decreases units.len(),
{
    if units.len() == 0 {
        Seq::empty()
    } else if units.len() >= 2 && is_high_surrogate(units[0]) && is_low_surrogate(units[1]) {
        seq![surrogate_pair(units[0], units[1])] + utf16_decoded(units.skip(2))
    } else if is_high_surrogate(units[0]) || is_low_surrogate(units[0]) {
        seq!['\u{FFFD}'] + utf16_decoded(units.skip(1))
    } else {
        seq![units[0] as char] + utf16_decoded(units.skip(1))
    }
}

/// `n` in decimal digits.
pub open spec fn decimal(n: int) -> Seq<char>
    decreases n,
{
    if n < 10 {
        seq![(48 + n) as char]
    } else {
        decimal(n / 10).push((48 + n % 10) as char)
    }
}

/// `n` in decimal digits, with a minus sign where it is negative.
pub open spec fn signed_decimal(n: int) -> Seq<char> {
    if n < 0 {
        seq!['-'] + decimal(-n)
    } else {
        decimal(n)
    }
}

/// The hexadecimal digit of a number below sixteen.
pub open spec fn hex_digit(n: int) -> char {
    if n < 10 {
        (48 + n) as char
    } else {
        (87 + n) as char
    }
}

/// `n` in lower case hexadecimal digits.
pub open spec fn hexadecimal(n: int) -> Seq<char>
    decreases n,
{
    if n < 16 {
        seq![hex_digit(n)]
    } else {
        hexadecimal(n / 16).push(hex_digit(n % 16))
    }
}

/// A control character: U+0000 to U+001F and U+007F to U+009F.
pub open spec fn is_control(c: char) -> bool {
    (c as int) < 0x20 || 0x7F <= c as int <= 0x9F
}

/// A character, where it is a control character by its number: `\u{1b}`.
pub open spec fn escaped_char(c: char) -> Seq<char> {
    if is_control(c) {
        seq!['\\', 'u', '{'] + hexadecimal(c as int) + seq!['}']
    } else {
        seq![c]
    }
}

/// A text with its control characters by their numbers.
pub open spec fn escaped(s: Seq<char>) -> Seq<char>
    decreases s.len(),
{
    if s.len() == 0 {
        Seq::empty()
    } else {
        escaped(s.drop_last()) + escaped_char(s.last())
    }
}

/// The characters of a text, one by one.
pub fn chars_of(text: &str) -> (chars: Vec<char>)
    ensures
        chars@ == text@,
{
    let mut chars: Vec<char> = Vec::new();
    for c in it: text.chars()
        invariant
            chars@ == it.seq().take(it.index() as int),
            it.seq() == text@,
    {
        chars.push(c);
    }
    chars
}

/// The text with the given characters.
pub fn string_of(chars: &[char]) -> (text: String)
    ensures
        text@ == chars@,
{
    let mut text: String = String::new();
    let mut i: usize = 0;
    while i < chars.len()
        invariant
            i <= chars@.len(),
            text@ == chars@.take(i as int),
        decreases chars@.len() - i,
    {
        text.push(chars[i]);
        i += 1;
    }
    assert(chars@.take(i as int) =~= chars@);
    text
}

/// Appends `tail` to `text`.
pub fn push_text(text: &mut String, tail: &str)
    ensures
        final(text)@ == old(text)@ + tail@,
{
    let chars: Vec<char> = chars_of(tail);
    let mut i: usize = 0;
    while i < chars.len()
        invariant
            i <= chars@.len(),
            text@ == old(text)@ + chars@.take(i as int),
        decreases chars@.len() - i,
    {
        text.push(chars[i]);
        i += 1;
    }
    assert(chars@.take(i as int) =~= chars@);
}

/// Whether two texts are the same.
pub fn same_text(a: &str, b: &str) -> (same: bool)
    ensures
        same == (a@ == b@),
{
    let x: Vec<char> = chars_of(a);
    let y: Vec<char> = chars_of(b);
    if x.len() != y.len() {
        return false;
    }
    let mut i: usize = 0;
    while i < x.len()
        invariant
            i <= x@.len(),
            x@.len() == y@.len(),
            x@ == a@,
            y@ == b@,
            forall|j: int| 0 <= j < i ==> x@[j] == y@[j],
        decreases x@.len() - i,
    {
        if x[i] != y[i] {
            return false;
        }
        i += 1;
    }
    assert(x@ =~= y@);
    true
}

/// A copy of `text` as an owned string.
pub fn owned_text(text: &str) -> (copy: String)
    ensures
        copy@ == text@,
{
    let mut copy: String = String::new();
    push_text(&mut copy, text);
    assert(copy@ =~= text@);
    copy
}

/// Each byte as the character with that code.
pub fn latin1_string(bytes: &[u8]) -> (text: String)
    ensures
        text@ == latin1(bytes@),
{
    let mut text: String = String::new();
    let mut i: usize = 0;
    while i < bytes.len()
        invariant
            i <= bytes@.len(),
            text@ == latin1(bytes@.take(i as int)),
        decreases bytes@.len() - i,
    {
        text.push(bytes[i] as char);
        i += 1;
        assert(latin1(bytes@.take(i as int)) =~= latin1(bytes@.take(i - 1)).push(
            bytes@[i - 1] as char,
        ));
    }
    assert(bytes@.take(i as int) =~= bytes@);
    text
}

/// The UTF-16 code units of a text.
pub fn utf16_units(text: &str) -> (units: Vec<u16>)
    ensures
        units@ == utf16(text@),
{
    let chars: Vec<char> = chars_of(text);
    let mut units: Vec<u16> = Vec::new();
    let mut i: usize = 0;
    assert(chars@.skip(0) =~= chars@);
    while i < chars.len()
        invariant
            i <= chars@.len(),
            units@ + utf16(chars@.skip(i as int)) == utf16(chars@),
        decreases chars@.len() - i,
    {
        let ghost before = units@;
        let c: char = chars[i];
        proof {
            lemma_char_code(c);
        }
        let code: u32 = c as u32;
        if code < 0x1_0000 {
            units.push(code as u16);
        } else {
            let rest: u32 = code - 0x1_0000;
            units.push((0xD800 + rest / 0x400) as u16);
            units.push((0xDC00 + rest % 0x400) as u16);
        }
        proof {
            assert(chars@.skip(i as int)[0] == chars@[i as int]);
            assert(units@ =~= before + char_units(chars@[i as int]));
            assert(chars@.skip(i as int).skip(1) =~= chars@.skip(i + 1));
            assert(before + (char_units(chars@[i as int]) + utf16(chars@.skip(i + 1))) =~= units@
                + utf16(chars@.skip(i + 1)));
        }
        i += 1;
    }
    assert(chars@.skip(i as int) =~= Seq::empty());
    assert(units@ + utf16(chars@.skip(i as int)) =~= units@);
    units
}

/// The text that UTF-16 code units stand for; a surrogate without its partner
/// becomes U+FFFD.
pub fn utf16_units_to_string(units: &[u16]) -> (text: String)
    ensures
        text@ == utf16_decoded(units@),
{
    let mut text: String = String::new();
    let mut i: usize = 0;
    assert(units@.skip(0) =~= units@);
    while i < units.len()
        invariant
            i <= units@.len(),
            text@ + utf16_decoded(units@.skip(i as int)) == utf16_decoded(units@),
        decreases units@.len() - i,
    {
        let ghost before = text@;
        let ghost here = units@.skip(i as int);
        let unit: u16 = units[i];
        assert(here[0] == unit);
        if 0xD800 <= unit && unit <= 0xDBFF && units.len() - i >= 2 && 0xDC00 <= units[i + 1]
            && units[i + 1] <= 0xDFFF {
            let low: u16 = units[i + 1];
            assert(here[1] == low);
            let code: u32 = 0x1_0000 + (unit as u32 - 0xD800) * 0x400 + (low as u32 - 0xDC00);
            match char::from_u32(code) {
                Some(c) => {
                    text.push(c);
                },
                None => {
                    text.push('\u{FFFD}');
                },
            }
            proof {
                assert(here.skip(2) =~= units@.skip(i + 2));
                assert(before + (seq![surrogate_pair(unit, low)] + utf16_decoded(here.skip(2)))
                    =~= text@ + utf16_decoded(units@.skip(i + 2)));
            }
            i += 2;
        } else {
            if 0xD800 <= unit && unit <= 0xDFFF {
                text.push('\u{FFFD}');
            } else {
                match char::from_u32(unit as u32) {
                    Some(c) => {
                        text.push(c);
                    },
                    None => {
                        text.push('\u{FFFD}');
                    },
                }
            }
            proof {
                assert(units@.len() - i >= 2 ==> here[1] == units@[i + 1]);
                assert(here.skip(1) =~= units@.skip(i + 1));
                assert(text@ =~= before + seq![text@.last()]);
                assert(before + (seq![text@.last()] + utf16_decoded(here.skip(1))) =~= text@
                    + utf16_decoded(units@.skip(i + 1)));
            }
            i += 1;
        }
    }
    assert(units@.skip(i as int) =~= Seq::empty());
    assert(text@ + utf16_decoded(units@.skip(i as int)) =~= text@);
    text
}

/// Appends `n` in decimal digits.
pub fn push_decimal(text: &mut String, n: u64)
    ensures
        final(text)@ == old(text)@ + decimal(n as int),
    decreases n,
{
    if n >= 10 {
        push_decimal(text, n / 10);
    }
    text.push((48 + (n % 10) as u8) as char);
    assert(text@ =~= old(text)@ + decimal(n as int));
}

/// Appends `n` in decimal digits, with a minus sign where it is negative.
pub fn push_signed_decimal(text: &mut String, n: i64)
    ensures
        final(text)@ == old(text)@ + signed_decimal(n as int),
{
    if n < 0 {
        text.push('-');
        push_decimal(text, (-(n as i128)) as u64);
        assert(text@ =~= old(text)@ + signed_decimal(n as int));
    } else {
        push_decimal(text, n as u64);
    }
}

/// Appends `n` in lower case hexadecimal digits.
pub fn push_hexadecimal(text: &mut String, n: u64)
    ensures
        final(text)@ == old(text)@ + hexadecimal(n as int),
    decreases n,
{
    if n >= 16 {
        push_hexadecimal(text, n / 16);
    }
    let digit: u8 = (n % 16) as u8;
    if digit < 10 {
        text.push((48 + digit) as char);
    } else {
        text.push((87 + digit) as char);
    }
    assert(text@ =~= old(text)@ + hexadecimal(n as int));
}

/// Appends `tail` with its control characters by their numbers.
pub fn push_escaped(text: &mut String, tail: &str)
    ensures
        final(text)@ == old(text)@ + escaped(tail@),
{
    let chars: Vec<char> = chars_of(tail);
    let mut i: usize = 0;
    assert(chars@.take(0) =~= Seq::<char>::empty());
    while i < chars.len()
        invariant
            i <= chars@.len(),
            text@ == old(text)@ + escaped(chars@.take(i as int)),
        decreases chars@.len() - i,
    {
        let c: char = chars[i];
        proof {
            lemma_char_code(c);
        }
        let code: u32 = c as u32;
        let ghost before = text@;
        if code < 0x20 || (0x7F <= code && code <= 0x9F) {
            text.push('\\');
            text.push('u');
            text.push('{');
            push_hexadecimal(text, code as u64);
            text.push('}');
        } else {
            text.push(c);
        }
        assert(text@ =~= before + escaped_char(c));
        assert(chars@.take(i + 1).drop_last() =~= chars@.take(i as int));
        i += 1;
    }
    assert(chars@.take(i as int) =~= chars@);
}

proof fn lemma_hexadecimal_printable(n: int)
    requires
        0 <= n,
    ensures
        forall|i: int|
            0 <= i < hexadecimal(n).len() ==> !is_control(#[trigger] hexadecimal(n)[i]),
    decreases n,
{
    assert(!is_control(hex_digit(n % 16)));
    if n >= 16 {
        lemma_hexadecimal_printable(n / 16);
        let first = hexadecimal(n / 16);
        assert forall|i: int| 0 <= i < hexadecimal(n).len() implies !is_control(
            #[trigger] hexadecimal(n)[i],
        ) by {
            if i < first.len() {
                assert(hexadecimal(n)[i] == first[i]);
            }
        }
    }
}

/// A text with its control characters by their numbers has no control character.
pub proof fn law_escaped_printable(s: Seq<char>)
    ensures
        forall|i: int| 0 <= i < escaped(s).len() ==> !is_control(#[trigger] escaped(s)[i]),
    decreases s.len(),
{
    if s.len() > 0 {
        let c = s.last();
        law_escaped_printable(s.drop_last());
        lemma_char_code(c);
        lemma_hexadecimal_printable(c as int);
        assert forall|i: int| 0 <= i < escaped_char(c).len() implies !is_control(
            #[trigger] escaped_char(c)[i],
        ) by {
            if is_control(c) && 3 <= i < escaped_char(c).len() - 1 {
                assert(escaped_char(c)[i] == hexadecimal(c as int)[i - 3]);
            }
        }
        let first = escaped(s.drop_last());
        assert forall|i: int| 0 <= i < escaped(s).len() implies !is_control(
            #[trigger] escaped(s)[i],
        ) by {
            if i < first.len() {
                assert(escaped(s)[i] == first[i]);
            } else {
                assert(escaped(s)[i] == escaped_char(c)[i - first.len()]);
            }
        }
    }
}

/// `label` followed by `n` in decimal digits.
pub fn numbered(label: &str, n: u64) -> (text: String)
    ensures
        text@ == label@ + decimal(n as int),
{
    let mut text: String = owned_text(label);
    push_decimal(&mut text, n);
    text
}

/// A character is a Unicode scalar value.
pub proof fn lemma_char_code(c: char)
    ensures
        0 <= c as int <= 0xD7FF || 0xE000 <= c as int <= 0x10FFFF,
{
}

/// Decoding the UTF-16 code units of a text gives the text back.
pub proof fn law_utf16_round_trip(s: Seq<char>)
    ensures
        utf16_decoded(utf16(s)) == s,
    decreases s.len(),
{
    if s.len() > 0 {
        let c = s[0];
        lemma_char_code(c);
        let head = char_units(c);
        let tail = utf16(s.skip(1));
        law_utf16_round_trip(s.skip(1));
        let all = head + tail;
        assert(utf16(s) == all);
        assert(all[0] == head[0]);
        if (c as int) < 0x1_0000 {
            assert(all.skip(1) =~= tail);
            assert(all[0] as char == c);
            assert(utf16_decoded(all) == seq![c] + utf16_decoded(all.skip(1)));
            assert(seq![c] + s.skip(1) =~= s);
        } else {
            assert(all[1] == head[1]);
            assert(all.skip(2) =~= tail);
            assert(surrogate_pair(head[0], head[1]) == c);
            assert(seq![c] + s.skip(1) =~= s);
        }
    } else {
        assert(utf16(s) =~= Seq::empty());
        assert(utf16_decoded(utf16(s)) =~= s);
    }
}

} // verus!
