//! UTF-8 coding of texts.

use vstd::prelude::*;

use crate::text;

verus! {

/// Why bytes are not the UTF-8 code of a text.
#[derive(Debug, Clone, Copy, PartialEq, Eq, Structural)]
pub enum Utf8DecodeError {
    /// The bytes end within a character.
    InvalidByteIndex,
    /// A byte within a character is none, or the character has a shorter code.
    InvalidContinuationByte,
    /// The code of half a surrogate pair.
    LoneSurrogate(u32),
    /// No character starts with this byte.
    InvalidUtf8Detected,
}

/// The hexadecimal digits of `n` as capitals.
pub open spec fn capital_hexadecimal(n: int) -> Seq<char>
    decreases n,
{
    let digit = if n % 16 < 10 {
        (48 + n % 16) as char
    } else {
        (55 + n % 16) as char
    };
    if n < 16 {
        seq![digit]
    } else {
        capital_hexadecimal(n / 16).push(digit)
    }
}

fn push_capital_hexadecimal(text: &mut String, n: u32)
    ensures
        final(text)@ == old(text)@ + capital_hexadecimal(n as int),
    decreases n,
{
    if n >= 16 {
        push_capital_hexadecimal(text, n / 16);
    }
    let digit: u8 = (n % 16) as u8;
    if digit < 10 {
        text.push((48 + digit) as char);
    } else {
        text.push((55 + digit) as char);
    }
    assert(text@ =~= old(text)@ + capital_hexadecimal(n as int));
}

impl Utf8DecodeError {
    /// The sentence that describes the error.
    pub fn message(&self) -> (message: String)
        ensures
            message@ == (match *self {
                Utf8DecodeError::InvalidByteIndex => "Invalid byte index"@,
                Utf8DecodeError::InvalidContinuationByte => "Invalid continuation byte"@,
                Utf8DecodeError::LoneSurrogate(code) => "Lone surrogate U+"@ + capital_hexadecimal(
                    code as int,
                ) + " is not a scalar value"@,
                Utf8DecodeError::InvalidUtf8Detected => "Invalid UTF-8 detected"@,
            }),
    {
        match *self {
            Utf8DecodeError::InvalidByteIndex => text::owned_text("Invalid byte index"),
            Utf8DecodeError::InvalidContinuationByte => text::owned_text(
                "Invalid continuation byte",
            ),
            Utf8DecodeError::LoneSurrogate(code) => {
                let mut message: String = text::owned_text("Lone surrogate U+");
                push_capital_hexadecimal(&mut message, code);
                text::push_text(&mut message, " is not a scalar value");
                message
            },
            Utf8DecodeError::InvalidUtf8Detected => text::owned_text("Invalid UTF-8 detected"),
        }
    }
}

/// The UTF-8 code of a character.
pub open spec fn scalar_bytes(code: int) -> Seq<u8> {
    if code < 0x80 {
        seq![code as u8]
    } else if code < 0x800 {
        seq![(0xC0 + code / 0x40) as u8, (0x80 + code % 0x40) as u8]
    } else if code < 0x1_0000 {
        seq![
            (0xE0 + code / 0x1000) as u8,
            (0x80 + (code / 0x40) % 0x40) as u8,
            (0x80 + code % 0x40) as u8,
        ]
    } else {
        seq![
            (0xF0 + code / 0x4_0000) as u8,
            (0x80 + (code / 0x1000) % 0x40) as u8,
            (0x80 + (code / 0x40) % 0x40) as u8,
            (0x80 + code % 0x40) as u8,
        ]
    }
}

/// The UTF-8 code of a text.
pub open spec fn utf8_bytes(s: Seq<char>) -> Seq<u8>
    decreases s.len(),
{
    if s.len() == 0 {
        Seq::empty()
    } else {
        utf8_bytes(s.drop_last()) + scalar_bytes(s.last() as int)
    }
}

fn char_length_in_bytes(code: u32) -> (length: usize)
    ensures
        length == scalar_bytes(code as int).len(),
{
    if code < 0x80 {
        1
    } else if code < 0x800 {
        2
    } else if code < 0x1_0000 {
        3
    } else {
        4
    }
}

proof fn lemma_utf8_prefix(s: Seq<char>, i: int)
    requires
        0 <= i < s.len(),
    ensures
        utf8_bytes(s.take(i + 1)) == utf8_bytes(s.take(i)) + scalar_bytes(s[i] as int),
        utf8_bytes(s.take(i + 1)).len() <= utf8_bytes(s).len(),
    decreases s.len() - i,
{
    assert(s.take(i + 1).drop_last() =~= s.take(i));
    if i + 1 < s.len() {
        lemma_utf8_prefix(s, i + 1);
    } else {
        assert(s.take(i + 1) =~= s);
    }
}

/// How many bytes the UTF-8 code of a text takes.
pub fn string_length_in_bytes(value: &str) -> (length: usize)
    ensures
        length == utf8_bytes(value@).len(),
{
    proof {
        law_utf8_is_standard(value@);
    }
    let plain: &[u8] = value.as_bytes();
    let size: usize = plain.len();
    let chars: Vec<char> = text::chars_of(value);
    let mut length: usize = 0;
    let mut i: usize = 0;
    assert(chars@.take(0) =~= Seq::<char>::empty());
    while i < chars.len()
        invariant
            i <= chars@.len(),
            utf8_bytes(chars@).len() <= usize::MAX,
            length == utf8_bytes(chars@.take(i as int)).len(),
        decreases chars@.len() - i,
    {
        let c: char = chars[i];
        proof {
            text::lemma_char_code(c);
            lemma_utf8_prefix(chars@, i as int);
        }
        length += char_length_in_bytes(c as u32);
        i += 1;
    }
    assert(chars@.take(i as int) =~= chars@);
    length
}

/// `buffer` with `piece` written over it from `offset` on.
pub open spec fn overwritten(buffer: Seq<u8>, offset: int, piece: Seq<u8>) -> Seq<u8> {
    buffer.take(offset) + piece + buffer.skip(offset + piece.len())
}

fn write_character(buffer: &mut [u8], offset: usize, code: u32) -> (length: usize)
    requires
        code <= 0x10_FFFF,
        offset + scalar_bytes(code as int).len() <= old(buffer)@.len(),
    ensures
        length == scalar_bytes(code as int).len(),
        final(buffer)@ == overwritten(old(buffer)@, offset as int, scalar_bytes(code as int)),
{
    let size: usize = buffer.len();
    let length: usize = char_length_in_bytes(code);
    if length == 1 {
        buffer[offset] = code as u8;
    } else if length == 2 {
        buffer[offset] = (0xC0 + code / 0x40) as u8;
        buffer[offset + 1] = (0x80 + code % 0x40) as u8;
    } else if length == 3 {
        buffer[offset] = (0xE0 + code / 0x1000) as u8;
        buffer[offset + 1] = (0x80 + (code / 0x40) % 0x40) as u8;
        buffer[offset + 2] = (0x80 + code % 0x40) as u8;
    } else {
        buffer[offset] = (0xF0 + code / 0x4_0000) as u8;
        buffer[offset + 1] = (0x80 + (code / 0x1000) % 0x40) as u8;
        buffer[offset + 2] = (0x80 + (code / 0x40) % 0x40) as u8;
        buffer[offset + 3] = (0x80 + code % 0x40) as u8;
    }
    assert(buffer@ =~= overwritten(old(buffer)@, offset as int, scalar_bytes(code as int)));
    length
}

/// Writes the UTF-8 code of a text into `buffer` from `offset` on, and gives the
/// place behind it.
pub fn encode_string_to(buffer: &mut [u8], offset: usize, value: &str) -> (end: usize)
    requires
        offset + utf8_bytes(value@).len() <= old(buffer)@.len(),
    ensures
        end == offset + utf8_bytes(value@).len(),
        final(buffer)@ == overwritten(old(buffer)@, offset as int, utf8_bytes(value@)),
{
    let size: usize = buffer.len();
    let chars: Vec<char> = text::chars_of(value);
    let mut end: usize = offset;
    let mut i: usize = 0;
    assert(chars@.take(0) =~= Seq::<char>::empty());
    assert(buffer@ =~= overwritten(old(buffer)@, offset as int, utf8_bytes(chars@.take(0))));
    while i < chars.len()
        invariant
            i <= chars@.len(),
            size == old(buffer)@.len(),
            buffer@.len() == size,
            offset + utf8_bytes(chars@).len() <= size,
            end == offset + utf8_bytes(chars@.take(i as int)).len(),
            buffer@ == overwritten(old(buffer)@, offset as int, utf8_bytes(chars@.take(i as int))),
        decreases chars@.len() - i,
    {
        let c: char = chars[i];
        proof {
            text::lemma_char_code(c);
            lemma_utf8_prefix(chars@, i as int);
        }
        let ghost before = buffer@;
        let n: usize = write_character(buffer, end, c as u32);
        assert(buffer@ =~= overwritten(
            old(buffer)@,
            offset as int,
            utf8_bytes(chars@.take(i + 1)),
        ));
        end = end + n;
        i += 1;
    }
    assert(chars@.take(i as int) =~= chars@);
    end
}

/// The UTF-8 code of a text.
pub fn encode_string(value: &str) -> (code: Vec<u8>)
    ensures
        code@ == utf8_bytes(value@),
{
    let mut buffer: Vec<u8> = vec![0u8; string_length_in_bytes(value)];
    encode_string_to(buffer.as_mut_slice(), 0, value);
    assert(buffer@ =~= utf8_bytes(value@));
    buffer
}

/// The bits that a byte within a character carries.
pub open spec fn continuation_bits(s: Seq<u8>, i: int) -> Result<int, Utf8DecodeError> {
    if i >= s.len() {
        Err(Utf8DecodeError::InvalidByteIndex)
    } else if 0x80 <= s[i] < 0xC0 {
        Ok(s[i] - 0x80)
    } else {
        Err(Utf8DecodeError::InvalidContinuationByte)
    }
}

/// The first character that the bytes stand for, and how many bytes it takes.
pub open spec fn first_scalar(s: Seq<u8>) -> Result<(int, int), Utf8DecodeError> {
    let lead = s[0] as int;
    if lead < 0x80 {
        Ok((lead, 1))
    } else if 0xC0 <= lead < 0xE0 {
        match continuation_bits(s, 1) {
            Err(e) => Err(e),
            Ok(b) => {
                let code = (lead - 0xC0) * 0x40 + b;
                if code < 0x80 {
                    Err(Utf8DecodeError::InvalidContinuationByte)
                } else {
                    Ok((code, 2))
                }
            },
        }
    } else if 0xE0 <= lead < 0xF0 {
        match (continuation_bits(s, 1), continuation_bits(s, 2)) {
            (Err(e), _) => Err(e),
            (Ok(_), Err(e)) => Err(e),
            (Ok(b), Ok(c)) => {
                let code = (lead - 0xE0) * 0x1000 + b * 0x40 + c;
                if code < 0x800 {
                    Err(Utf8DecodeError::InvalidContinuationByte)
                } else if 0xD800 <= code <= 0xDFFF {
                    Err(Utf8DecodeError::LoneSurrogate(code as u32))
                } else {
                    Ok((code, 3))
                }
            },
        }
    } else if 0xF0 <= lead < 0xF8 {
        match (continuation_bits(s, 1), continuation_bits(s, 2), continuation_bits(s, 3)) {
            (Err(e), _, _) => Err(e),
            (Ok(_), Err(e), _) => Err(e),
            (Ok(_), Ok(_), Err(e)) => Err(e),
            (Ok(b), Ok(c), Ok(d)) => {
                let code = (lead - 0xF0) * 0x4_0000 + b * 0x1000 + c * 0x40 + d;
                if code < 0x1_0000 || code > 0x10_FFFF {
                    Err(Utf8DecodeError::InvalidContinuationByte)
                } else {
                    Ok((code, 4))
                }
            },
        }
    } else {
        Err(Utf8DecodeError::InvalidUtf8Detected)
    }
}

/// The text that UTF-8 bytes stand for.
pub open spec fn utf8_decoded(s: Seq<u8>) -> Result<Seq<char>, Utf8DecodeError>
    decreases s.len(),
{
    if s.len() == 0 {
        Ok(Seq::empty())
    } else {
        match first_scalar(s) {
            Err(e) => Err(e),
            Ok((code, n)) => if n <= 0 {
                Err(Utf8DecodeError::InvalidUtf8Detected)
            } else {
                match utf8_decoded(s.skip(n)) {
                    Err(e) => Err(e),
                    Ok(rest) => Ok(seq![code as char] + rest),
                }
            },
        }
    }
}

fn continuation_byte(buffer: &[u8], index: usize) -> (bits: Result<u32, Utf8DecodeError>)
    ensures
        match continuation_bits(buffer@, index as int) {
            Ok(b) => bits matches Ok(v) && v == b && v < 0x40,
            Err(e) => bits is Err && bits->Err_0 == e,
        },
{
    if index >= buffer.len() {
        return Err(Utf8DecodeError::InvalidByteIndex);
    }
    let b: u8 = buffer[index];
    if 0x80 <= b && b < 0xC0 {
        Ok((b - 0x80) as u32)
    } else {
        Err(Utf8DecodeError::InvalidContinuationByte)
    }
}

fn decode_scalar(value: &[u8]) -> (scalar: Result<(char, usize), Utf8DecodeError>)
    requires
        value@.len() > 0,
    ensures
        match first_scalar(value@) {
            Ok((code, n)) => scalar matches Ok((c, len)) && c == code as char && len == n && n
                <= value@.len(),
            Err(e) => scalar is Err && scalar->Err_0 == e,
        },
{
    let lead: u32 = value[0] as u32;
    let code: u32;
    let length: usize;
    if lead < 0x80 {
        code = lead;
        length = 1;
    } else if 0xC0 <= lead && lead < 0xE0 {
        let b: u32 = continuation_byte(value, 1)?;
        code = (lead - 0xC0) * 0x40 + b;
        length = 2;
        if code < 0x80 {
            return Err(Utf8DecodeError::InvalidContinuationByte);
        }
    } else if 0xE0 <= lead && lead < 0xF0 {
        let b: u32 = continuation_byte(value, 1)?;
        let c: u32 = continuation_byte(value, 2)?;
        code = (lead - 0xE0) * 0x1000 + b * 0x40 + c;
        length = 3;
        if code < 0x800 {
            return Err(Utf8DecodeError::InvalidContinuationByte);
        }
        if 0xD800 <= code && code <= 0xDFFF {
            return Err(Utf8DecodeError::LoneSurrogate(code));
        }
    } else if 0xF0 <= lead && lead < 0xF8 {
        let b: u32 = continuation_byte(value, 1)?;
        let c: u32 = continuation_byte(value, 2)?;
        let d: u32 = continuation_byte(value, 3)?;
        code = (lead - 0xF0) * 0x4_0000 + b * 0x1000 + c * 0x40 + d;
        length = 4;
        if code < 0x1_0000 || code > 0x10_FFFF {
            return Err(Utf8DecodeError::InvalidContinuationByte);
        }
    } else {
        return Err(Utf8DecodeError::InvalidUtf8Detected);
    }
    match char::from_u32(code) {
        Some(c) => Ok((c, length)),
        None => Err(Utf8DecodeError::InvalidUtf8Detected),
    }
}

/// The text that UTF-8 bytes stand for.
pub fn decode_string(value: &[u8]) -> (text: Result<String, Utf8DecodeError>)
    ensures
        match utf8_decoded(value@) {
            Ok(s) => text matches Ok(t) && t@ == s,
            Err(e) => text is Err && text->Err_0 == e,
        },
{
    let mut result: String = String::new();
    let mut i: usize = 0;
    let len: usize = value.len();
    assert(value@.skip(0) =~= value@);
    proof {
        assert(utf8_decoded(value@) matches Ok(s) ==> Seq::<char>::empty() + s =~= s);
    }
    while i < len
        invariant
            i <= len,
            len == value@.len(),
            match utf8_decoded(value@.skip(i as int)) {
                Ok(rest) => utf8_decoded(value@) == Ok::<Seq<char>, Utf8DecodeError>(
                    result@ + rest,
                ),
                Err(e) => utf8_decoded(value@) == Err::<Seq<char>, Utf8DecodeError>(e),
            },
        decreases len - i,
    {
        let ghost tail = value@.skip(i as int);
        let ghost before = result@;
        let rest: &[u8] = vstd::slice::slice_subrange(value, i, len);
        assert(rest@ =~= tail);
        let (c, n): (char, usize) = decode_scalar(rest)?;
        result.push(c);
        proof {
            assert(tail.skip(n as int) =~= value@.skip(i + n));
            if utf8_decoded(tail.skip(n as int)) is Ok {
                let more = utf8_decoded(tail.skip(n as int))->Ok_0;
                assert(before + (seq![c] + more) =~= result@ + more);
            }
        }
        i = i + n;
    }
    proof {
        assert(value@.skip(i as int) =~= Seq::<u8>::empty());
        assert(result@ + Seq::<char>::empty() =~= result@);
    }
    Ok(result)
}

/// The code of a text begins with that of its first character.
pub proof fn lemma_utf8_front(s: Seq<char>)
    requires
        s.len() > 0,
    ensures
        utf8_bytes(s) == scalar_bytes(s[0] as int) + utf8_bytes(s.skip(1)),
    decreases s.len(),
{
    if s.len() == 1 {
        assert(s.drop_last() =~= Seq::<char>::empty());
        assert(s.skip(1) =~= Seq::<char>::empty());
        assert(utf8_bytes(s.drop_last()) =~= Seq::<u8>::empty());
        assert(utf8_bytes(s) =~= scalar_bytes(s[0] as int));
        assert(utf8_bytes(s) =~= scalar_bytes(s[0] as int) + utf8_bytes(s.skip(1)));
    } else {
        lemma_utf8_front(s.drop_last());
        assert(s.drop_last().skip(1) =~= s.skip(1).drop_last());
        assert(s.skip(1).last() == s.last());
        assert(utf8_bytes(s) =~= scalar_bytes(s[0] as int) + utf8_bytes(s.skip(1)));
    }
}

/// The code of a character stands for it, whatever follows.
pub proof fn lemma_first_scalar(c: char, rest: Seq<u8>)
    ensures
        first_scalar(scalar_bytes(c as int) + rest) == Ok::<(int, int), Utf8DecodeError>(
            (c as int, scalar_bytes(c as int).len() as int),
        ),
{
    text::lemma_char_code(c);
    let code = c as int;
    let head = scalar_bytes(code);
    let all = head + rest;
    assert(all[0] == head[0]);
    if code < 0x80 {
    } else if code < 0x800 {
        assert(all[1] == head[1]);
        assert((head[0] - 0xC0) * 0x40 + (head[1] - 0x80) == code);
    } else if code < 0x1_0000 {
        assert(all[1] == head[1]);
        assert(all[2] == head[2]);
        assert((head[0] - 0xE0) * 0x1000 + (head[1] - 0x80) * 0x40 + (head[2] - 0x80) == code);
    } else {
        assert(all[1] == head[1]);
        assert(all[2] == head[2]);
        assert(all[3] == head[3]);
        assert((head[0] - 0xF0) * 0x4_0000 + (head[1] - 0x80) * 0x1000 + (head[2] - 0x80) * 0x40 + (
        head[3] - 0x80) == code);
    }
}

/// Decoding the UTF-8 code of a text gives the text back.
pub proof fn law_utf8_round_trip(s: Seq<char>)
    ensures
        utf8_decoded(utf8_bytes(s)) == Ok::<Seq<char>, Utf8DecodeError>(s),
    decreases s.len(),
{
    if s.len() == 0 {
        assert(utf8_decoded(utf8_bytes(s)) == Ok::<Seq<char>, Utf8DecodeError>(Seq::empty()));
        assert(s =~= Seq::<char>::empty());
    } else {
        let c = s[0];
        let head = scalar_bytes(c as int);
        let rest = utf8_bytes(s.skip(1));
        lemma_utf8_front(s);
        law_utf8_round_trip(s.skip(1));
        lemma_first_scalar(c, rest);
        assert((head + rest).skip(head.len() as int) =~= rest);
        assert(seq![c] + s.skip(1) =~= s);
    }
}

proof fn lemma_scalar_bits(code: u32)
    by (bit_vector)
    requires
        code <= 0x10_FFFF,
    ensures
        code < 0x80 ==> (code & 0x7F) as u8 == code,
        code < 0x800 ==> 0xC0u8 | ((code >> 6) & 0x1F) as u8 == 0xC0 + code / 0x40,
        code < 0x1_0000 ==> 0xE0u8 | ((code >> 12) & 0x0F) as u8 == 0xE0 + code / 0x1000,
        0xF0u8 | ((code >> 18) & 0x07) as u8 == 0xF0 + code / 0x4_0000,
        0x80u8 | ((code >> 12) & 0x3F) as u8 == 0x80 + (code / 0x1000) % 0x40,
        0x80u8 | ((code >> 6) & 0x3F) as u8 == 0x80 + (code / 0x40) % 0x40,
        0x80u8 | (code & 0x3F) as u8 == 0x80 + code % 0x40,
{
}

/// The UTF-8 code of a text is how the text is held in memory.
pub proof fn law_utf8_is_standard(s: Seq<char>)
    ensures
        utf8_bytes(s) == vstd::utf8::encode_utf8(s),
    decreases s.len(),
{
    if s.len() > 0 {
        let c = s[0];
        text::lemma_char_code(c);
        lemma_utf8_front(s);
        law_utf8_is_standard(s.skip(1));
        assert(s.skip(1) =~= s.drop_first());
        lemma_scalar_bits(c as u32);
        assert(scalar_bytes(c as int) =~= vstd::utf8::encode_scalar(c as u32));
    } else {
        assert(utf8_bytes(s) =~= vstd::utf8::encode_utf8(s));
    }
}

} // verus!
