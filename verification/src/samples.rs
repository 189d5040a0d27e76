//! Samples of 8, 16 and 32 bits, all of which end up as bytes.

use vstd::prelude::*;


verus! {

/// Two to the power of `n`.
pub open spec fn power_of_two(n: int) -> int
    decreases n,
{
    if n <= 0 {
        1
    } else {
        2 * power_of_two(n - 1)
    }
}

/// `p / d`, rounded to the nearest whole number, a tie to the even one.
pub open spec fn nearest_even(p: int, d: int) -> int {
    let q = p / d;
    let r = p % d;
    if 2 * r > d || (2 * r == d && q % 2 == 1) {
        q + 1
    } else {
        q
    }
}

/// The byte of a 32-bit sample, which is a single precision number between zero
/// and one: 255 times that number in single precision, rounded to a whole
/// number, a tie away from zero. What lies outside is cut off, and what is not a
/// number counts as zero.
pub open spec fn byte_of_float(b: u32) -> u8 {
    let exponent = (b / 0x80_0000) % 256;
    let fraction = b % 0x80_0000;
    if b >= 0x8000_0000 || (exponent == 255 && fraction != 0) {
        0
    } else if exponent >= 127 {
        255
    } else if exponent < 100 {
        0
    } else {
        let product = (0x80_0000 + fraction) * 255;
        let unit = if product < 0x8000_0000 {
            128int
        } else {
            256int
        };
        let scaled = nearest_even(product, unit) * unit;
        let one = power_of_two(150 - exponent);
        ((2 * scaled + one) / (2 * one)) as u8
    }
}

fn power_of_two_u64(n: u32) -> (p: u64)
    requires
        n <= 50,
    ensures
        p == power_of_two(n as int),
        1 <= p <= 0x4_0000_0000_0000,
{
    let mut p: u64 = 1;
    let mut i: u32 = 0;
    proof {
        lemma_power_of_fifty();
    }
    while i < n
        invariant
            i <= n <= 50,
            p == power_of_two(i as int),
            1 <= p,
            p * power_of_two(50 - i) == 0x4_0000_0000_0000,
            power_of_two(50 - i) >= 1,
        decreases n - i,
    {
        assert(power_of_two(50 - i) == 2 * power_of_two(49 - i));
        proof {
            lemma_power_positive(49 - i);
            let rest = power_of_two(49 - i);
            assert(p * (2 * rest) == (2 * p) * rest) by (nonlinear_arith);
            assert(2 * p <= 0x4_0000_0000_0000) by (nonlinear_arith)
                requires
                    (2 * p) * rest == 0x4_0000_0000_0000,
                    rest >= 1,
                    p >= 1,
            ;
        }
        p = 2 * p;
        i += 1;
    }
    proof {
        lemma_power_positive(50 - n);
        let rest = power_of_two(50 - n);
        assert(p <= 0x4_0000_0000_0000) by (nonlinear_arith)
            requires
                p * rest == 0x4_0000_0000_0000,
                rest >= 1,
                p >= 1,
        ;
    }
    p
}

proof fn lemma_power_positive(n: int)
    ensures
        power_of_two(n) >= 1,
    decreases n,
{
    if n > 0 {
        lemma_power_positive(n - 1);
    }
}

proof fn lemma_power_of_fifty()
    ensures
        power_of_two(50) == 0x4_0000_0000_0000,
{
    reveal_with_fuel(power_of_two, 51);
}

/// The byte of a 32-bit sample.
pub fn float_to_byte(b: u32) -> (v: u8)
    ensures
        v == byte_of_float(b),
{
    let exponent: u32 = (b / 0x80_0000) % 256;
    let fraction: u32 = b % 0x80_0000;
    if b >= 0x8000_0000 || (exponent == 255 && fraction != 0) {
        return 0;
    }
    if exponent >= 127 {
        return 255;
    }
    if exponent < 100 {
        return 0;
    }
    let product: u64 = (0x80_0000 + fraction as u64) * 255;
    let unit: u64 = if product < 0x8000_0000 {
        128
    } else {
        256
    };
    let quotient: u64 = product / unit;
    let rest: u64 = product % unit;
    let rounded: u64 = if 2 * rest > unit || (2 * rest == unit && quotient % 2 == 1) {
        quotient + 1
    } else {
        quotient
    };
    let scaled: u64 = rounded * unit;
    let one: u64 = power_of_two_u64(150 - exponent);
    assert((2 * scaled + one) / (2 * one as int) <= 255) by {
        lemma_float_byte(exponent as int, scaled as int, one as int);
    }
    ((2 * scaled + one) / (2 * one)) as u8
}

proof fn lemma_float_byte(exponent: int, scaled: int, one: int)
    requires
        100 <= exponent <= 126,
        one == power_of_two(150 - exponent),
        0 <= scaled <= 0x1_0000_0000,
        scaled <= 255 * 0x100_0000,
    ensures
        (2 * scaled + one) / (2 * one) <= 255,
{
    lemma_power_at_least(150 - exponent);
    assert((2 * scaled + one) / (2 * one) <= 255) by (nonlinear_arith)
        requires
            one >= 0x100_0000,
            0 <= scaled <= 255 * 0x100_0000,
    ;
}

proof fn lemma_power_at_least(n: int)
    requires
        n >= 24,
    ensures
        power_of_two(n) >= 0x100_0000,
    decreases n,
{
    if n == 24 {
        reveal_with_fuel(power_of_two, 25);
    } else {
        lemma_power_at_least(n - 1);
    }
}

} // verus!
