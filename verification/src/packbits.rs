//! PackBits, the run-length code of a row of samples.

use vstd::prelude::*;

verus! {

/// How many samples at the start of `s` are equal to the first, from `k` on, at
/// most 128.
pub open spec fn run_length(s: Seq<u8>, k: int) -> int
    decreases 128 - k,
{
    if k >= 128 || k >= s.len() || s[k] != s[0] {
        k
    } else {
        run_length(s, k + 1)
    }
}

/// Three equal samples start at `k`.
pub open spec fn run_at(s: Seq<u8>, k: int) -> bool {
    k + 2 < s.len() && s[k] == s[k + 1] && s[k] == s[k + 2]
}

/// How many samples come before the next three equal ones, from `k` on, at most 128.
pub open spec fn literal_length(s: Seq<u8>, k: int) -> int
    decreases 128 - k,
{
    if k >= 128 || k + 2 >= s.len() {
        if s.len() < 128 {
            s.len() as int
        } else {
            128
        }
    } else if run_at(s, k) {
        k
    } else {
        literal_length(s, k + 1)
    }
}

/// The code of a row. Three or more equal samples become a run: a byte that
/// counts down from 257, and the sample. Other samples become literals: their
/// number less one, and the samples.
pub open spec fn packed(s: Seq<u8>) -> Seq<u8>
    decreases s.len(),
    via packed_decreases
{
    if s.len() == 0 {
        Seq::empty()
    } else if s.len() <= 2 {
        seq![(s.len() - 1) as u8] + s
    } else if run_at(s, 0) {
        let n = run_length(s, 1);
        seq![(257 - n) as u8, s[0]] + packed(s.skip(n))
    } else {
        let n = literal_length(s, 1);
        seq![(n - 1) as u8] + s.take(n) + packed(s.skip(n))
    }
}

#[via_fn]
proof fn packed_decreases(s: Seq<u8>) {
    if s.len() > 2 {
        lemma_run_length(s, 1);
        lemma_literal_length(s, 1);
    }
}

proof fn lemma_run_length(s: Seq<u8>, k: int)
    requires
        1 <= k <= 128,
        k <= s.len(),
        forall|i: int| 0 <= i < k ==> #[trigger] s[i] == s[0],
    ensures
        k <= run_length(s, k) <= 128,
        run_length(s, k) <= s.len(),
        forall|i: int| 0 <= i < run_length(s, k) ==> #[trigger] s[i] == s[0],
    decreases 128 - k,
{
    if k >= 128 || k >= s.len() || s[k] != s[0] {
    } else {
        lemma_run_length(s, k + 1);
    }
}

proof fn lemma_literal_length(s: Seq<u8>, k: int)
    requires
        1 <= k <= 128,
        k <= s.len(),
        s.len() >= 1,
    ensures
        1 <= literal_length(s, k) <= 128,
        literal_length(s, k) <= s.len(),
    decreases 128 - k,
{
    if k >= 128 || k + 2 >= s.len() || run_at(s, k) {
    } else {
        lemma_literal_length(s, k + 1);
    }
}

/// The samples that a coded row stands for, of which no more than `width` count.
pub open spec fn unpacked(s: Seq<u8>, width: int) -> Seq<u8>
    decreases s.len(),
{
    if s.len() == 0 || width <= 0 {
        Seq::empty()
    } else if s[0] > 128 {
        if s.len() < 2 {
            Seq::empty()
        } else {
            let n = if 257 - s[0] < width {
                257 - s[0]
            } else {
                width
            };
            Seq::new(n as nat, |i: int| s[1]) + unpacked(s.skip(2), width - n)
        }
    } else if s[0] < 128 {
        let n = s[0] + 1;
        if n <= s.len() - 1 && n <= width {
            s.subrange(1, 1 + n) + unpacked(s.skip(1 + n), width - n)
        } else if s.len() - 1 <= width {
            s.skip(1)
        } else {
            s.subrange(1, 1 + width)
        }
    } else {
        unpacked(s.skip(1), width)
    }
}

/// Appends the code of a row.
pub fn pack_row(row: &[u8], out: &mut Vec<u8>)
    ensures
        final(out)@ == old(out)@ + packed(row@),
{
    let len: usize = row.len();
    let mut p: usize = 0;
    assert(row@.skip(0) =~= row@);
    while p < len
        invariant
            p <= len,
            len == row@.len(),
            out@ + packed(row@.skip(p as int)) == old(out)@ + packed(row@),
        decreases len - p,
    {
        let ghost s = row@.skip(p as int);
        let ghost before = out@;
        if len - p <= 2 {
            out.push((len - p - 1) as u8);
            out.push(row[p]);
            if len - p == 2 {
                out.push(row[p + 1]);
            }
            proof {
                assert(row@.skip(len as int) =~= Seq::<u8>::empty());
                assert(out@ =~= before + packed(s));
                assert(out@ + packed(row@.skip(len as int)) =~= out@);
            }
            p = len;
        } else if row[p] == row[p + 1] && row[p] == row[p + 2] {
            let mut n: usize = 1;
            assert(run_at(s, 0));
            while n < 128 && p + n < len && row[p + n] == row[p]
                invariant
                    1 <= n <= 128,
                    p + n <= len,
                    len == row@.len(),
                    s == row@.skip(p as int),
                    run_length(s, n as int) == run_length(s, 1),
                decreases 128 - n,
            {
                n += 1;
            }
            proof {
                assert(n < 128 && p + n < len ==> s[n as int] == row@[p + n]);
                lemma_run_length(s, 1);
            }
            out.push((257 - n) as u8);
            out.push(row[p]);
            proof {
                assert(s.skip(n as int) =~= row@.skip(p + n));
                assert(before + (seq![(257 - n) as u8, s[0]] + packed(s.skip(n as int))) =~= out@
                    + packed(row@.skip(p + n)));
            }
            p = p + n;
        } else {
            let mut n: usize = 1;
            assert(!run_at(s, 0));
            while n < 128 && n + 2 < len - p && !(row[p + n] == row[p + n + 1] && row[p + n]
                == row[p + n + 2])
                invariant
                    1 <= n <= 128,
                    p + n + 2 <= len,
                    len == row@.len(),
                    s == row@.skip(p as int),
                    literal_length(s, n as int) == literal_length(s, 1),
                decreases 128 - n,
            {
                n += 1;
            }
            if n >= 128 || n + 2 >= len - p {
                n = if len - p < 128 {
                    len - p
                } else {
                    128
                };
            }
            proof {
                lemma_literal_length(s, 1);
            }
            assert(n == literal_length(s, 1));
            out.push((n - 1) as u8);
            let mut i: usize = 0;
            let ghost head = out@;
            while i < n
                invariant
                    i <= n,
                    p + n <= len,
                    len == row@.len(),
                    s == row@.skip(p as int),
                    out@ == head + s.take(i as int),
                decreases n - i,
            {
                out.push(row[p + i]);
                i += 1;
                assert(s.take(i as int) =~= s.take(i - 1).push(s[i - 1]));
            }
            proof {
                assert(s.skip(n as int) =~= row@.skip(p + n));
                assert(before + (seq![(n - 1) as u8] + s.take(n as int) + packed(s.skip(n as int)))
                    =~= out@ + packed(row@.skip(p + n)));
            }
            p = p + n;
        }
    }
    assert(row@.skip(p as int) =~= Seq::<u8>::empty());
    assert(out@ + packed(row@.skip(p as int)) =~= out@);
}

/// Appends the samples that a coded row stands for, at most `width` of them.
pub fn unpack_row(row: &[u8], width: usize, out: &mut Vec<u8>)
    ensures
        final(out)@ == old(out)@ + unpacked(row@, width as int),
{
    let len: usize = row.len();
    let mut i: usize = 0;
    let mut rest: usize = width;
    assert(row@.skip(0) =~= row@);
    while i < len && rest > 0
        invariant
            i <= len,
            len == row@.len(),
            out@ + unpacked(row@.skip(i as int), rest as int) == old(out)@ + unpacked(
                row@,
                width as int,
            ),
        decreases len - i,
    {
        let ghost s = row@.skip(i as int);
        let ghost before = out@;
        let header: u8 = row[i];
        assert(s[0] == header);
        if header > 128 {
            if len - i < 2 {
                assert(before + unpacked(s, rest as int) =~= before);
                return;
            }
            let value: u8 = row[i + 1];
            assert(s[1] == value);
            let run: usize = 257 - header as usize;
            let n: usize = if run < rest {
                run
            } else {
                rest
            };
            let mut j: usize = 0;
            while j < n
                invariant
                    j <= n,
                    out@ == before + Seq::new(j as nat, |k: int| value),
                decreases n - j,
            {
                out.push(value);
                j += 1;
                assert(out@ =~= before + Seq::new(j as nat, |k: int| value));
            }
            proof {
                assert(s.skip(2) =~= row@.skip(i + 2));
                assert(Seq::new(n as nat, |k: int| value) =~= Seq::new(n as nat, |k: int| s[1]));
                assert(before + (Seq::new(n as nat, |k: int| s[1]) + unpacked(
                    s.skip(2),
                    rest - n,
                )) =~= out@ + unpacked(row@.skip(i + 2), rest - n));
            }
            i += 2;
            rest -= n;
        } else if header < 128 {
            let count: usize = header as usize + 1;
            let mut n: usize = count;
            if n > len - i - 1 {
                n = len - i - 1;
            }
            if n > rest {
                n = rest;
            }
            let mut j: usize = 0;
            while j < n
                invariant
                    j <= n,
                    n <= len - i - 1,
                    i < len,
                    len == row@.len(),
                    s == row@.skip(i as int),
                    out@ == before + s.subrange(1, 1 + j),
                decreases n - j,
            {
                out.push(row[i + 1 + j]);
                j += 1;
                assert(s.subrange(1, 1 + j) =~= s.subrange(1, j as int).push(s[j as int]));
            }
            if n < count {
                proof {
                    assert(s.skip(1) =~= s.subrange(1, s.len() as int));
                    assert(out@ == before + unpacked(s, rest as int));
                }
                return;
            }
            proof {
                assert(s.skip(1 + n) =~= row@.skip(i + 1 + n));
                assert(before + (s.subrange(1, 1 + n) + unpacked(s.skip(1 + n), rest - n)) =~= out@
                    + unpacked(row@.skip(i + 1 + n), rest - n));
            }
            i += 1 + n;
            rest -= n;
        } else {
            assert(s.skip(1) =~= row@.skip(i + 1));
            i += 1;
        }
    }
    assert(out@ + unpacked(row@.skip(i as int), rest as int) =~= out@);
}

/// A packed row takes at most two bytes per sample.
pub proof fn lemma_packed_length(s: Seq<u8>)
    ensures
        packed(s).len() <= 2 * s.len(),
        s.len() > 0 ==> packed(s).len() > 0,
    decreases s.len(),
{
    if s.len() > 2 {
        lemma_run_length(s, 1);
        lemma_literal_length(s, 1);
        if run_at(s, 0) {
            lemma_run_length(s, 2);
            assert(run_length(s, 1) == run_length(s, 2));
            lemma_packed_length(s.skip(run_length(s, 1)));
        } else {
            lemma_packed_length(s.skip(literal_length(s, 1)));
        }
    }
}

/// A row packs into a row that stands for it.
pub proof fn law_packbits_round_trip(s: Seq<u8>, width: int)
    requires
        s.len() <= width,
    ensures
        unpacked(packed(s), width) == s,
    decreases s.len(),
{
    let code = packed(s);
    if s.len() == 0 {
    } else if s.len() <= 2 {
        assert(code[0] == s.len() - 1);
        assert(code.subrange(1, 1 + s.len() as int) =~= s);
        assert(code.skip(1 + s.len() as int) =~= Seq::<u8>::empty());
        assert(unpacked(code.skip(1 + s.len() as int), width - s.len()) =~= Seq::<u8>::empty());
        assert(s + Seq::<u8>::empty() =~= s);
    } else if run_at(s, 0) {
        let n = run_length(s, 1);
        lemma_run_length(s, 1);
        lemma_run_length(s, 2);
        assert(run_length(s, 1) == run_length(s, 2));
        law_packbits_round_trip(s.skip(n), width - n);
        assert(code[0] == 257 - n);
        assert(code[1] == s[0]);
        assert(code.skip(2) =~= packed(s.skip(n)));
        assert(Seq::new(n as nat, |i: int| code[1]) =~= s.take(n));
        assert(s.take(n) + s.skip(n) =~= s);
    } else {
        let n = literal_length(s, 1);
        lemma_literal_length(s, 1);
        law_packbits_round_trip(s.skip(n), width - n);
        assert(code[0] == n - 1);
        assert(code.subrange(1, 1 + n) =~= s.take(n));
        assert(code.skip(1 + n) =~= packed(s.skip(n)));
        assert(s.take(n) + s.skip(n) =~= s);
    }
}

} // verus!
