//! What single values come to: single precision samples as bytes, numbers as digits, rows
//! of samples as packets, bytes as characters, and names as codes.

use vstd::arithmetic::power2::lemma_pow2_unfold;
use vstd::arithmetic::power2::pow2;
use vstd::prelude::*;

use crate::dict;
use crate::dict::EnumCodecView;
use crate::packbits;
use crate::samples;
use crate::text;
use crate::utf8;
use crate::utf8::Utf8DecodeError;

verus! {

/// The number is the nearest multiple of `unit`, and the even one of two that are as near.
pub open spec fn nearest_multiple(found: int, number: int, unit: int) -> bool {
    &&& exists|k: int| #![trigger unit * k]
        found == unit * k && (2 * (found - number) == unit || 2 * (number - found) == unit ==> k % 2
            == 0)
    &&& -unit <= 2 * (found - number) <= unit
}

/// The byte `k` is the nearest to `scaled / one`, and the upper one of two that are as
/// near.
pub open spec fn nearest_byte(k: u8, scaled: int, one: int) -> bool {
    -one <= 2 * scaled - 2 * (k * one) < one
}

/// A single precision sample has a sign bit, eight bits of an exponent and 23 of a
/// fraction. From zero to one it comes to 255 times itself as a byte: the product is
/// rounded to the 24 bits of a single precision number, and this to a whole number. What
/// is one or more comes to 255; what is negative or no number, and what is too small, to
/// zero.
pub proof fn law_float_byte(b: u32)
    ensures
        ({
            let exponent = (b / 8388608) % 256;
            let mantissa = 8388608 + b % 8388608;
            let k = samples::byte_of_float(b);
            if b >= 2147483648 || (exponent == 255 && mantissa != 8388608) {
                k == 0
            } else if exponent >= 127 {
                k == 255
            } else if exponent < 100 {
                k == 0
            } else {
                let product = 255 * mantissa;
                exists|scaled: int| #[trigger]
                    nearest_byte(k, scaled, pow2((150 - exponent) as nat) as int)
                        && nearest_multiple(
                        scaled,
                        product,
                        if product < 2147483648 {
                            128
                        } else {
                            256
                        },
                    )
            }
        }),
{
    let exponent = (b / 8388608) % 256;
    let mantissa = 8388608 + b % 8388608;
    if b < 2147483648 && 100 <= exponent < 127 {
        let product = 255 * mantissa;
        let unit: int = if product < 2147483648 {
            128
        } else {
            256
        };
        let rounded = samples::nearest_even(product, unit);
        let scaled = rounded * unit;
        let one = samples::power_of_two(150 - exponent);
        lemma_power(150 - exponent);
        assert(nearest_multiple(scaled, product, unit)) by {
            assert(unit * rounded == scaled) by (nonlinear_arith)
                requires
                    scaled == rounded * unit,
            ;
        }
        assert(0 <= scaled <= 255 * 16777216);
        let k = (2 * scaled + one) / (2 * one);
        assert(one >= 16777216);
        assert(0 <= k <= 255 && -one <= 2 * scaled - 2 * (k * one) < one) by (nonlinear_arith)
            requires
                k == (2 * scaled + one) / (2 * one),
                one >= 16777216,
                0 <= scaled <= 255 * 16777216,
        ;
        assert(nearest_byte(samples::byte_of_float(b), scaled, pow2((150 - exponent) as nat) as int));
    }
}

proof fn lemma_power(n: int)
    requires
        0 <= n,
    ensures
        samples::power_of_two(n) == pow2(n as nat),
        n >= 24 ==> samples::power_of_two(n) >= 16777216,
    decreases n,
{
    if n == 0 {
        vstd::arithmetic::power2::lemma2_to64();
    } else {
        lemma_pow2_unfold(n as nat);
        lemma_power(n - 1);
        if n == 24 {
            vstd::arithmetic::power2::lemma2_to64();
        }
    }
}

/// The number that a digit stands for, small letters and capitals alike.
pub open spec fn digit_value(c: char) -> int {
    let code = c as int;
    if 48 <= code <= 57 {
        code - 48
    } else if 97 <= code <= 102 {
        code - 87
    } else if 65 <= code <= 70 {
        code - 55
    } else {
        -1
    }
}

/// The number that digits stand for.
pub open spec fn digits_value(s: Seq<char>, base: int) -> int
    decreases s.len(),
{
    if s.len() == 0 {
        0
    } else {
        base * digits_value(s.drop_last(), base) + digit_value(s.last())
    }
}

/// The digits stand for a number: each is one of the base, and no zero is in front.
pub open spec fn digits_of(s: Seq<char>, base: int, n: int) -> bool {
    &&& digits_value(s, base) == n
    &&& s.len() > 0
    &&& s.len() > 1 ==> s[0] != '0'
    &&& forall|i: int| 0 <= i < s.len() ==> 0 <= digit_value(#[trigger] s[i]) < base
}

/// A number is written as its digits, and a negative one with a minus sign in front;
/// hexadecimal digits are small letters, or capitals.
pub proof fn law_digits(n: int)
    requires
        0 <= n,
    ensures
        digits_of(text::decimal(n), 10, n),
        text::signed_decimal(n) == text::decimal(n),
        n > 0 ==> text::signed_decimal(-n) == seq!['-'] + text::decimal(n),
        digits_of(text::hexadecimal(n), 16, n),
        forall|i: int|
            0 <= i < text::hexadecimal(n).len() ==> !('A' as int <= (
            #[trigger] text::hexadecimal(n)[i]) as int <= 'F' as int),
        digits_of(utf8::capital_hexadecimal(n), 16, n),
        forall|i: int|
            0 <= i < utf8::capital_hexadecimal(n).len() ==> !('a' as int <= (
            #[trigger] utf8::capital_hexadecimal(n)[i]) as int <= 'f' as int),
    decreases n,
{
    lemma_decimal(n);
    lemma_hexadecimal(n);
    lemma_capital_hexadecimal(n);
}

proof fn lemma_push_digit(s: Seq<char>, base: int, n: int, c: char)
    requires
        digits_of(s, base, n),
        n > 0,
        0 <= digit_value(c) < base,
    ensures
        digits_of(s.push(c), base, base * n + digit_value(c)),
{
    let t = s.push(c);
    assert(t.drop_last() =~= s);
    if s.len() == 1 {
        assert(s.drop_last() =~= Seq::<char>::empty());
        assert(digits_value(s.drop_last(), base) == 0);
        assert(base * 0 == 0) by (nonlinear_arith);
        assert(digit_value(s[0]) == n);
    }
    assert(t[0] == s[0]);
}

proof fn lemma_one_digit(c: char, base: int)
    requires
        0 <= digit_value(c) < base,
    ensures
        digits_of(seq![c], base, digit_value(c)),
{
    let s = seq![c];
    assert(s.drop_last() =~= Seq::<char>::empty());
    assert(digits_value(s.drop_last(), base) == 0);
    assert(base * 0 == 0) by (nonlinear_arith);
}

proof fn lemma_decimal(n: int)
    requires
        0 <= n,
    ensures
        digits_of(text::decimal(n), 10, n),
    decreases n,
{
    if n < 10 {
        lemma_one_digit((48 + n) as char, 10);
    } else {
        lemma_decimal(n / 10);
        lemma_push_digit(text::decimal(n / 10), 10, n / 10, (48 + n % 10) as char);
    }
}

proof fn lemma_hexadecimal(n: int)
    requires
        0 <= n,
    ensures
        digits_of(text::hexadecimal(n), 16, n),
        forall|i: int|
            0 <= i < text::hexadecimal(n).len() ==> !('A' as int <= (
            #[trigger] text::hexadecimal(n)[i]) as int <= 'F' as int),
    decreases n,
{
    if n < 16 {
        lemma_one_digit(text::hex_digit(n), 16);
    } else {
        lemma_hexadecimal(n / 16);
        lemma_push_digit(text::hexadecimal(n / 16), 16, n / 16, text::hex_digit(n % 16));
    }
}

proof fn lemma_capital_hexadecimal(n: int)
    requires
        0 <= n,
    ensures
        digits_of(utf8::capital_hexadecimal(n), 16, n),
        forall|i: int|
            0 <= i < utf8::capital_hexadecimal(n).len() ==> !('a' as int <= (
            #[trigger] utf8::capital_hexadecimal(n)[i]) as int <= 'f' as int),
    decreases n,
{
    let digit = if n % 16 < 10 {
        (48 + n % 16) as char
    } else {
        (55 + n % 16) as char
    };
    if n < 16 {
        lemma_one_digit(digit, 16);
    } else {
        lemma_capital_hexadecimal(n / 16);
        lemma_push_digit(utf8::capital_hexadecimal(n / 16), 16, n / 16, digit);
    }
}

/// Three equal samples stand one behind the other.
pub open spec fn three_equal(s: Seq<u8>, i: int) -> bool {
    0 <= i && i + 2 < s.len() && s[i] == s[i + 1] && s[i + 1] == s[i + 2]
}

/// Three or more equal samples at the start of a row, all of them up to 128, become two
/// bytes, of which the first is 257 less their number; the rest is packed for itself.
pub proof fn law_run_packed(s: Seq<u8>, n: int)
    requires
        3 <= n <= 128,
        n <= s.len(),
        forall|i: int| 0 <= i < n ==> #[trigger] s[i] == s[0],
        n == 128 || n == s.len() || s[n] != s[0],
    ensures
        packbits::packed(s) == seq![(257 - n) as u8, s[0]] + packbits::packed(s.skip(n)),
{
    assert(s[1] == s[0] && s[2] == s[0]);
    lemma_run(s, 1, n);
}

proof fn lemma_run(s: Seq<u8>, k: int, n: int)
    requires
        1 <= k <= n <= 128,
        n <= s.len(),
        forall|i: int| 0 <= i < n ==> #[trigger] s[i] == s[0],
        n == 128 || n == s.len() || s[n] != s[0],
    ensures
        packbits::run_length(s, k) == n,
    decreases n - k,
{
    if k < n {
        assert(s[k] == s[0]);
        lemma_run(s, k + 1, n);
    }
}

/// Samples at the start of a row before three equal ones, all of them up to 128, stand as
/// they are behind a byte that is one less than their number; the rest is packed for
/// itself.
pub proof fn law_literal_packed(s: Seq<u8>, n: int)
    requires
        1 <= n <= 128,
        n <= s.len(),
        forall|i: int| 0 <= i < n ==> !#[trigger] three_equal(s, i),
        n == 128 || n == s.len() || three_equal(s, n),
    ensures
        packbits::packed(s) == seq![(n - 1) as u8] + s.take(n) + packbits::packed(s.skip(n)),
{
    assert(!three_equal(s, 0));
    if s.len() <= 2 {
        assert(n == s.len());
        assert(s.take(n) =~= s);
        assert(s.skip(n) =~= Seq::<u8>::empty());
        assert(packbits::packed(s.skip(n)) =~= Seq::<u8>::empty());
        assert(seq![(n - 1) as u8] + s + Seq::<u8>::empty() =~= seq![(n - 1) as u8] + s);
    } else {
        lemma_literal(s, 1, n);
    }
}

proof fn lemma_literal(s: Seq<u8>, k: int, n: int)
    requires
        1 <= k <= n <= 128,
        n <= s.len(),
        forall|i: int| 0 <= i < n ==> !#[trigger] three_equal(s, i),
        n == 128 || n == s.len() || three_equal(s, n),
    ensures
        packbits::literal_length(s, k) == n,
    decreases n - k,
{
    if k < n {
        assert(!three_equal(s, k));
        if k + 2 < s.len() {
            lemma_literal(s, k + 1, n);
        } else if n != s.len() && n != 128 {
            assert(three_equal(s, n));
        }
    }
}

/// A byte that goes on with a character.
pub open spec fn goes_on(s: Seq<u8>, i: int) -> bool {
    0 <= i < s.len() && 128 <= s[i] < 192
}

/// How many bytes a character has that starts with this one; none where no character does.
pub open spec fn announced(lead: u8) -> int {
    if lead < 128 {
        1
    } else if 192 <= lead < 224 {
        2
    } else if 224 <= lead < 240 {
        3
    } else if 240 <= lead < 248 {
        4
    } else {
        0
    }
}

/// Why the bytes behind a text cannot be decoded: no character starts with the first, they
/// end within a character, a byte within it is none, the code is longer than it must be or
/// too large, or it is half a surrogate pair. The text in front does not matter.
pub proof fn law_utf8_refused(front: Seq<char>, s: Seq<u8>)
    requires
        s.len() > 0,
    ensures
        ({
            let found = utf8::utf8_decoded(utf8::utf8_bytes(front) + s);
            let n = announced(s[0]);
            &&& n == 0 ==> found == Err::<Seq<char>, _>(Utf8DecodeError::InvalidUtf8Detected)
            &&& forall|k: int|
                1 <= k < n && (forall|i: int| 1 <= i < k ==> goes_on(s, i)) && k == s.len()
                    ==> #[trigger] refused(found, k, Utf8DecodeError::InvalidByteIndex)
            &&& forall|k: int|
                1 <= k < n && (forall|i: int| 1 <= i < k ==> goes_on(s, i)) && k < s.len()
                    && !goes_on(s, k) ==> #[trigger] refused(
                    found,
                    k,
                    Utf8DecodeError::InvalidContinuationByte,
                )
            &&& n == 2 && goes_on(s, 1) && s[0] < 194 ==> refused(
                found,
                2,
                Utf8DecodeError::InvalidContinuationByte,
            )
            &&& n == 3 && goes_on(s, 1) && goes_on(s, 2) && s[0] == 224 && s[1] < 160 ==> refused(
                found,
                3,
                Utf8DecodeError::InvalidContinuationByte,
            )
            &&& n == 3 && goes_on(s, 1) && goes_on(s, 2) && s[0] == 237 && s[1] >= 160 ==> refused(
                found,
                3,
                Utf8DecodeError::LoneSurrogate((53248 + 64 * (s[1] - 128) + (s[2] - 128)) as u32),
            )
            &&& n == 4 && goes_on(s, 1) && goes_on(s, 2) && goes_on(s, 3) && ((s[0] == 240 && s[1]
                < 144) || (s[0] == 244 && s[1] >= 144) || s[0] > 244) ==> refused(
                found,
                4,
                Utf8DecodeError::InvalidContinuationByte,
            )
        }),
{
    lemma_behind_text(front, s);
    let n = announced(s[0]);
    assert forall|k: int|
        1 <= k < n && (forall|i: int| 1 <= i < k ==> goes_on(s, i)) && k == s.len() implies
        #[trigger] refused(utf8::utf8_decoded(utf8::utf8_bytes(front) + s), k, Utf8DecodeError::InvalidByteIndex) by {
        if k > 1 {
            assert(goes_on(s, 1));
        }
        if k > 2 {
            assert(goes_on(s, 2));
        }
    }
    assert forall|k: int|
        1 <= k < n && (forall|i: int| 1 <= i < k ==> goes_on(s, i)) && k < s.len() && !goes_on(s, k)
        implies #[trigger] refused(utf8::utf8_decoded(utf8::utf8_bytes(front) + s), k, Utf8DecodeError::InvalidContinuationByte) by {
        if k > 1 {
            assert(goes_on(s, 1));
        }
        if k > 2 {
            assert(goes_on(s, 2));
        }
    }
}

/// The bytes are refused for this reason, at the `k`-th byte of a character.
pub open spec fn refused(
    found: Result<Seq<char>, Utf8DecodeError>,
    k: int,
    e: Utf8DecodeError,
) -> bool {
    found == Err::<Seq<char>, _>(e)
}

/// What decoding the bytes behind a text gives is what decoding all gives, with the text in
/// front.
pub proof fn lemma_behind_text(front: Seq<char>, s: Seq<u8>)
    ensures
        match utf8::utf8_decoded(s) {
            Ok(rest) => utf8::utf8_decoded(utf8::utf8_bytes(front) + s) == Ok::<
                _,
                Utf8DecodeError,
            >(front + rest),
            Err(e) => utf8::utf8_decoded(utf8::utf8_bytes(front) + s) == Err::<Seq<char>, _>(e),
        },
    decreases front.len(),
{
    if front.len() == 0 {
        assert(utf8::utf8_bytes(front) + s =~= s);
        if utf8::utf8_decoded(s) is Ok {
            assert(front + utf8::utf8_decoded(s)->Ok_0 =~= utf8::utf8_decoded(s)->Ok_0);
        }
    } else {
        let c = front[0];
        let head = utf8::scalar_bytes(c as int);
        let middle = utf8::utf8_bytes(front.skip(1)) + s;
        utf8::lemma_utf8_front(front);
        utf8::lemma_first_scalar(c, middle);
        lemma_behind_text(front.skip(1), s);
        assert(utf8::utf8_bytes(front) + s =~= head + middle);
        assert((head + middle).skip(head.len() as int) =~= middle);
        if utf8::utf8_decoded(s) is Ok {
            let rest = utf8::utf8_decoded(s)->Ok_0;
            assert(seq![c] + (front.skip(1) + rest) =~= front + rest);
        }
    }
}

/// In camel case a word without blanks is as it is; behind a blank, which goes away, a
/// small letter becomes a capital, and other characters stay.
pub proof fn law_camel_case(word: Seq<char>, letter: char, rest: Seq<char>)
    requires
        forall|i: int| 0 <= i < word.len() ==> #[trigger] word[i] != ' ',
    ensures
        dict::camel_case(word) == word,
        dict::camel_case(word + seq![' ', letter] + rest) == word + seq![
            if 'a' as int <= letter as int <= 'z' as int {
                (letter as int - 'a' as int + 'A' as int) as char
            } else {
                letter
            },
        ] + dict::camel_case(rest),
    decreases word.len(),
{
    let all = word + seq![' ', letter] + rest;
    if word.len() == 0 {
        assert(dict::camel_case(word) =~= word);
        assert(all[0] == ' ' && all[1] == letter);
        assert(all.skip(2) =~= rest);
        let capital = dict::capital(letter);
        assert(seq![capital] + dict::camel_case(rest) =~= word + seq![capital] + dict::camel_case(
            rest,
        ));
    } else {
        let tail = word.skip(1);
        assert forall|i: int| 0 <= i < tail.len() implies #[trigger] tail[i] != ' ' by {
            assert(tail[i] == word[i + 1]);
        }
        law_camel_case(tail, letter, rest);
        assert(word[0] != ' ');
        assert(all[0] == word[0]);
        assert(all.skip(1) =~= tail + seq![' ', letter] + rest);
        assert(seq![word[0]] + tail =~= word);
        let capital = dict::capital(letter);
        assert(seq![word[0]] + (tail + seq![capital] + dict::camel_case(rest)) =~= word + seq![
            capital,
        ] + dict::camel_case(rest));
    }
}

/// The code of a value is what stands behind its first dot, up to the next one where there
/// is one.
pub proof fn law_second_part(a: Seq<char>, b: Seq<char>, c: Seq<char>)
    requires
        dict::dotless(a),
        dict::dotless(b),
    ensures
        dict::second_part(a) == Seq::<char>::empty(),
        dict::second_part(a + seq!['.'] + b) == b,
        dict::second_part(a + seq!['.'] + (b + seq!['.'] + c)) == b,
{
    dict::lemma_after_dot(a, b);
    dict::lemma_before_dot(b);
    dict::lemma_after_dot(a, b + seq!['.'] + c);
    lemma_up_to_dot(b, c);
    lemma_no_dot(a);
}

proof fn lemma_up_to_dot(b: Seq<char>, c: Seq<char>)
    requires
        dict::dotless(b),
    ensures
        dict::before_dot(b + seq!['.'] + c) == b,
    decreases b.len(),
{
    let all = b + seq!['.'] + c;
    if b.len() == 0 {
        assert(all[0] == '.');
        assert(b =~= Seq::<char>::empty());
    } else {
        assert(all[0] == b[0]);
        assert(all.skip(1) =~= b.skip(1) + seq!['.'] + c);
        assert forall|i: int| 0 <= i < b.skip(1).len() implies #[trigger] b.skip(1)[i] != '.' by {
            assert(b.skip(1)[i] == b[i + 1]);
        }
        lemma_up_to_dot(b.skip(1), c);
        assert(seq![b[0]] + b.skip(1) =~= b);
    }
}

proof fn lemma_no_dot(a: Seq<char>)
    requires
        dict::dotless(a),
    ensures
        dict::after_dot(a) == Seq::<char>::empty(),
    decreases a.len(),
{
    if a.len() > 0 {
        assert forall|i: int| 0 <= i < a.skip(1).len() implies #[trigger] a.skip(1)[i] != '.' by {
            assert(a.skip(1)[i] == a[i + 1]);
        }
        lemma_no_dot(a.skip(1));
    }
}

/// What code units stand for: two of them, the first from D800 to DBFF and the second from
/// DC00 to DFFF, for one character above FFFF; one of these alone for the replacement
/// character; any other for the character with its code. The rest stands for itself.
pub proof fn law_code_units(units: Seq<u16>)
    requires
        units.len() > 0,
    ensures
        ({
            let high = 55296 <= units[0] < 56320;
            let low = 56320 <= units[0] < 57344;
            let found = text::utf16_decoded(units);
            &&& found.len() > 0
            &&& if high && units.len() > 1 && 56320 <= units[1] < 57344 {
                found[0] as int == 65536 + 1024 * (units[0] - 55296) + (units[1] - 56320)
                    && found.skip(1) == text::utf16_decoded(units.skip(2))
            } else {
                found[0] as int == (if high || low {
                    65533
                } else {
                    units[0] as int
                }) && found.skip(1) == text::utf16_decoded(units.skip(1))
            }
        }),
{
    let found = text::utf16_decoded(units);
    if 55296 <= units[0] < 56320 && units.len() > 1 && 56320 <= units[1] < 57344 {
        assert(found.skip(1) =~= text::utf16_decoded(units.skip(2)));
    } else {
        assert(found.skip(1) =~= text::utf16_decoded(units.skip(1)));
    }
}

/// A name is written as its code behind the prefix and a dot, and no name as the default;
/// only a name of the enumeration can be written.
pub proof fn law_enum_written(codec: EnumCodecView, name: Seq<char>)
    ensures
        match codec.encoded(Some(name)) {
            Some(found) => codec.map.dom().contains(name) && found == codec.prefix + seq!['.']
                + codec.map[name],
            None => !codec.map.dom().contains(name),
        },
        codec.map.dom().contains(codec.def) ==> codec.encoded(None) == codec.encoded(
            Some(codec.def),
        ),
        !codec.map.dom().contains(codec.def) ==> codec.encoded(None) == Some(
            codec.prefix + seq!['.'],
        ),
{
    reveal_strlit(".");
    assert("."@ =~= seq!['.']);
    assert(codec.prefix + seq!['.'] + Seq::<char>::empty() =~= codec.prefix + seq!['.']);
}

/// What stands behind the dot of a value is the code of the name that is read, where it is
/// a code; nothing there is the default; a name there is itself; else it is the name that
/// is written so in camel case, and without such a name the value is refused.
pub proof fn law_enum_read(
    codec: EnumCodecView,
    front: Seq<char>,
    code: Seq<char>,
    name: Seq<char>,
)
    requires
        codec.wf(),
        dict::dotless(front),
        dict::dotless(code),
    ensures
        ({
            let value = front + seq!['.'] + code;
            let coded = exists|n: Seq<char>| #[trigger]
                codec.map.dom().contains(n) && codec.map[n] == code;
            &&& codec.decodes_to(value, name) ==> if coded {
                codec.map.dom().contains(name) && codec.map[name] == code
            } else if code.len() == 0 {
                name == codec.def
            } else if codec.map.dom().contains(code) {
                name == code
            } else {
                codec.map.dom().contains(name) && dict::camel_case(name) == code
            }
            &&& !codec.decodable(value) <==> !coded && code.len() > 0 && !codec.map.dom().contains(
                code,
            ) && forall|n: Seq<char>| #[trigger]
                codec.map.dom().contains(n) ==> dict::camel_case(n) != code
        }),
{
    let value = front + seq!['.'] + code;
    law_second_part(front, code, Seq::empty());
    let coded = exists|n: Seq<char>| #[trigger]
        codec.map.dom().contains(n) && codec.map[n] == code;
    assert(coded == codec.rev.dom().contains(code)) by {
        if coded {
            let n = choose|n: Seq<char>| #[trigger]
                codec.map.dom().contains(n) && codec.map[n] == code;
            assert(codec.rev.dom().contains(codec.map[n]));
        }
        if codec.rev.dom().contains(code) {
            assert(codec.map.dom().contains(codec.rev[code]));
        }
    }
    if codec.decodable(value) {
        if exists|n: Seq<char>| #[trigger] codec.camel_name(n, code) {
            let n = choose|n: Seq<char>| #[trigger] codec.camel_name(n, code);
            assert(codec.map.dom().contains(n));
        }
    } else {
        assert forall|n: Seq<char>| #[trigger] codec.map.dom().contains(n) implies dict::camel_case(
            n,
        ) != code by {
            assert(!codec.camel_name(n, code));
        }
    }
}

} // verus!
