//! The white matte of the composite image: where it has a transparency channel,
//! its colours are stored as they look over white.
//!
//! Both directions are defined by double precision arithmetic, cut off to a
//! whole number. Its result is the exact one cut off, but for some pairs of a
//! sample and an opacity for which the exact result is a whole number and the
//! arithmetic falls short of it.

use vstd::prelude::*;

verus! {

/// The arithmetic falls short of the whole number that a sample over white is.
pub open spec fn short_over_white(sample: u8, alpha: u8) -> bool {
    match alpha {
        43 | 59 | 74 | 91 | 106 | 107 | 122 => sample == 0 || sample == 255,
        75 | 90 => sample % 17 == 0,
        123 => sample % 85 == 0,
        132 | 133 | 140 | 141 | 148 | 149 | 156 | 157 | 164 | 172 | 173 | 181 | 188 | 189 | 196
        | 197 | 198 | 205 | 206 | 212 | 213 | 214 | 222 | 229 | 230 | 236 | 237 | 244 | 246
        | 253 | 254 => sample == 0,
        165 => sample % 17 == 0 && sample <= 51,
        180 => sample % 17 == 0 && sample <= 68,
        204 => sample % 5 == 0 && sample <= 95,
        220 => sample % 51 == 0 && sample <= 102,
        221 => sample % 15 == 0 && sample <= 30,
        228 | 252 => sample == 0 || sample == 85,
        238 => sample == 0 || sample == 15,
        245 => sample == 0 || sample == 51,
        _ => false,
    }
}

/// The arithmetic falls short of the whole number that a sample without the
/// white behind it is.
pub open spec fn short_without_white(sample: u8, alpha: u8) -> bool {
    match alpha {
        55 => sample == 244 || sample == 255,
        69 => sample == 209,
        90 => sample % 6 == 3 && sample >= 195,
        91 | 107 | 110 | 123 | 134 | 143 | 157 | 158 | 161 | 166 | 167 | 179 | 198 | 199 | 214
        | 220 | 253 => sample == 255,
        95 => sample % 19 == 8 && sample >= 198,
        99 => sample == 222 || sample == 255,
        108 => sample == 183,
        115 => sample == 232 || sample == 255,
        135 => sample % 9 == 3 && sample >= 192,
        138 => sample == 163 || sample == 209,
        141 => sample == 208 || sample == 255,
        153 => sample % 3 == 0 && sample >= 105,
        165 => sample % 11 == 2 && sample >= 167,
        168 => sample == 199 || sample == 255,
        171 => sample == 141,
        177 => sample == 137,
        183 => sample == 133,
        185 => sample == 107 || sample == 144,
        187 => sample % 11 == 2 && sample >= 79 && sample <= 156,
        190 => sample == 217 || sample == 255,
        195 => sample % 13 == 8 && sample >= 99 && sample <= 151,
        201 => sample == 121,
        205 => sample == 91,
        210 => sample % 14 == 3 && sample >= 59 && sample <= 101,
        216 => sample == 111,
        222 => sample == 107,
        228 => sample == 103,
        230 => sample == 71 || sample == 255,
        234 => sample == 99,
        235 => sample == 67 || sample == 114,
        245 => sample == 59,
        246 => sample == 91 || sample == 255,
        249 => sample == 89,
        _ => false,
    }
}

/// The least whole number that is not less than `n / d`.
pub open spec fn ceiling(n: int, d: int) -> int {
    (n + d - 1) / d
}

/// A sample as it looks over white.
pub open spec fn over_white(sample: u8, alpha: u8) -> u8 {
    if alpha == 0 || alpha == 255 {
        sample
    } else {
        (255 - ceiling((255 - sample) * alpha, 255) - (if short_over_white(sample, alpha) {
            1int
        } else {
            0int
        })) as u8
    }
}

/// A sample that looks over white as given; below zero it is cut off.
pub open spec fn without_white(sample: u8, alpha: u8) -> u8 {
    if alpha == 0 || alpha == 255 {
        sample
    } else {
        let value = 255 - ceiling((255 - sample) * 255, alpha as int) - (if short_without_white(
            sample,
            alpha,
        ) {
            1int
        } else {
            0int
        });
        if value < 0 {
            0
        } else {
            value as u8
        }
    }
}

fn falls_short_over_white(sample: u8, alpha: u8) -> (short: bool)
    ensures
        short == short_over_white(sample, alpha),
{
    match alpha {
        43 | 59 | 74 | 91 | 106 | 107 | 122 => sample == 0 || sample == 255,
        75 | 90 => sample % 17 == 0,
        123 => sample % 85 == 0,
        132 | 133 | 140 | 141 | 148 | 149 | 156 | 157 | 164 | 172 | 173 | 181 | 188 | 189 | 196
        | 197 | 198 | 205 | 206 | 212 | 213 | 214 | 222 | 229 | 230 | 236 | 237 | 244 | 246
        | 253 | 254 => sample == 0,
        165 => sample % 17 == 0 && sample <= 51,
        180 => sample % 17 == 0 && sample <= 68,
        204 => sample % 5 == 0 && sample <= 95,
        220 => sample % 51 == 0 && sample <= 102,
        221 => sample % 15 == 0 && sample <= 30,
        228 | 252 => sample == 0 || sample == 85,
        238 => sample == 0 || sample == 15,
        245 => sample == 0 || sample == 51,
        _ => false,
    }
}

fn falls_short_without_white(sample: u8, alpha: u8) -> (short: bool)
    ensures
        short == short_without_white(sample, alpha),
{
    match alpha {
        55 => sample == 244 || sample == 255,
        69 => sample == 209,
        90 => sample % 6 == 3 && sample >= 195,
        91 | 107 | 110 | 123 | 134 | 143 | 157 | 158 | 161 | 166 | 167 | 179 | 198 | 199 | 214
        | 220 | 253 => sample == 255,
        95 => sample % 19 == 8 && sample >= 198,
        99 => sample == 222 || sample == 255,
        108 => sample == 183,
        115 => sample == 232 || sample == 255,
        135 => sample % 9 == 3 && sample >= 192,
        138 => sample == 163 || sample == 209,
        141 => sample == 208 || sample == 255,
        153 => sample % 3 == 0 && sample >= 105,
        165 => sample % 11 == 2 && sample >= 167,
        168 => sample == 199 || sample == 255,
        171 => sample == 141,
        177 => sample == 137,
        183 => sample == 133,
        185 => sample == 107 || sample == 144,
        187 => sample % 11 == 2 && sample >= 79 && sample <= 156,
        190 => sample == 217 || sample == 255,
        195 => sample % 13 == 8 && sample >= 99 && sample <= 151,
        201 => sample == 121,
        205 => sample == 91,
        210 => sample % 14 == 3 && sample >= 59 && sample <= 101,
        216 => sample == 111,
        222 => sample == 107,
        228 => sample == 103,
        230 => sample == 71 || sample == 255,
        234 => sample == 99,
        235 => sample == 67 || sample == 114,
        245 => sample == 59,
        246 => sample == 91 || sample == 255,
        249 => sample == 89,
        _ => false,
    }
}

/// A sample as it looks over white.
pub fn matte_sample(sample: u8, alpha: u8) -> (v: u8)
    ensures
        v == over_white(sample, alpha),
{
    if alpha == 0 || alpha == 255 {
        return sample;
    }
    assert(0 <= (255 - sample) * alpha <= 255 * 254) by (nonlinear_arith)
        requires
            0 <= sample <= 255,
            0 <= alpha <= 254,
    ;
    let covered: u32 = ((255 - sample as u32) * alpha as u32 + 254) / 255;
    let value: u32 = 255 - covered;
    if falls_short_over_white(sample, alpha) {
        (value - 1) as u8
    } else {
        value as u8
    }
}

/// A sample that looks over white as given.
pub fn unmatte_sample(sample: u8, alpha: u8) -> (v: u8)
    ensures
        v == without_white(sample, alpha),
{
    if alpha == 0 || alpha == 255 {
        return sample;
    }
    let missing: u32 = (255 - sample as u32) * 255;
    let scaled: u32 = (missing + alpha as u32 - 1) / alpha as u32;
    assert(scaled == ceiling((255 - sample) * 255, alpha as int));
    let short: u32 = if falls_short_without_white(sample, alpha) {
        1
    } else {
        0
    };
    assert(scaled <= missing) by (nonlinear_arith)
        requires
            scaled == (missing + alpha - 1) / (alpha as int),
            alpha >= 1,
            missing >= 0,
    ;
    if scaled + short > 255 {
        0
    } else {
        (255 - scaled - short) as u8
    }
}

/// The first `size` bytes of pixels as they look over white.
pub open spec fn matted(data: Seq<u8>, size: int) -> Seq<u8> {
    Seq::new(
        data.len(),
        |i: int|
            if i < size && i % 4 != 3 {
                over_white(data[i], data[i - i % 4 + 3])
            } else {
                data[i]
            },
    )
}

/// The first `size` bytes of pixels without the white behind them.
pub open spec fn unmatted(data: Seq<u8>, size: int) -> Seq<u8> {
    Seq::new(
        data.len(),
        |i: int|
            if i < size && i % 4 != 3 {
                without_white(data[i], data[i - i % 4 + 3])
            } else {
                data[i]
            },
    )
}

/// Puts white behind the pixels in the first `size` bytes.
pub fn add_matte(data: &mut Vec<u8>, size: usize)
    requires
        size <= old(data)@.len(),
        size % 4 == 0,
    ensures
        final(data)@ == matted(old(data)@, size as int),
{
    let len: usize = data.len();
    let mut i: usize = 0;
    while i < size
        invariant
            i <= size <= len,
            i % 4 == 0,
            size % 4 == 0,
            len == old(data)@.len(),
            data@.len() == len,
            forall|j: int|
                0 <= j < len ==> #[trigger] data@[j] == (if j < i {
                    matted(old(data)@, size as int)[j]
                } else {
                    old(data)@[j]
                }),
        decreases size - i,
    {
        let alpha: u8 = data[i + 3];
        let r: u8 = matte_sample(data[i], alpha);
        let g: u8 = matte_sample(data[i + 1], alpha);
        let b: u8 = matte_sample(data[i + 2], alpha);
        assert(matted(old(data)@, size as int)[i as int] == r);
        assert(matted(old(data)@, size as int)[i + 1] == g);
        assert(matted(old(data)@, size as int)[i + 2] == b);
        assert(matted(old(data)@, size as int)[i + 3] == alpha);
        data.set(i, r);
        data.set(i + 1, g);
        data.set(i + 2, b);
        i += 4;
    }
    assert(data@ =~= matted(old(data)@, size as int));
}

/// Takes the white behind the pixels in the first `size` bytes away.
pub fn remove_matte(data: &mut Vec<u8>, size: usize)
    requires
        size <= old(data)@.len(),
        size % 4 == 0,
    ensures
        final(data)@ == unmatted(old(data)@, size as int),
{
    let len: usize = data.len();
    let mut i: usize = 0;
    while i < size
        invariant
            i <= size <= len,
            i % 4 == 0,
            size % 4 == 0,
            len == old(data)@.len(),
            data@.len() == len,
            forall|j: int|
                0 <= j < len ==> #[trigger] data@[j] == (if j < i {
                    unmatted(old(data)@, size as int)[j]
                } else {
                    old(data)@[j]
                }),
        decreases size - i,
    {
        let alpha: u8 = data[i + 3];
        let r: u8 = unmatte_sample(data[i], alpha);
        let g: u8 = unmatte_sample(data[i + 1], alpha);
        let b: u8 = unmatte_sample(data[i + 2], alpha);
        assert(unmatted(old(data)@, size as int)[i as int] == r);
        assert(unmatted(old(data)@, size as int)[i + 1] == g);
        assert(unmatted(old(data)@, size as int)[i + 2] == b);
        assert(unmatted(old(data)@, size as int)[i + 3] == alpha);
        data.set(i, r);
        data.set(i + 1, g);
        data.set(i + 2, b);
        i += 4;
    }
    assert(data@ =~= unmatted(old(data)@, size as int));
}

} // verus!
