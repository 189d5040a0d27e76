//! Big-endian integer encodings and the vocabulary for talking about where a
//! piece of a byte sequence lies.

use vstd::prelude::*;

verus! {

/// `v` as two bytes, most significant first.
#[verifier::opaque]
pub open spec fn u16_bytes(v: u16) -> Seq<u8> {
    seq![(v / 256) as u8, (v % 256) as u8]
}

/// `v` as two bytes, least significant first.
#[verifier::opaque]
pub open spec fn u16_le_bytes(v: u16) -> Seq<u8> {
    seq![(v % 256) as u8, (v / 256) as u8]
}

/// `v` as four bytes, most significant first.
#[verifier::opaque]
pub open spec fn u32_bytes(v: u32) -> Seq<u8> {
    seq![
        (v / 0x100_0000) as u8,
        ((v / 0x1_0000) % 256) as u8,
        ((v / 0x100) % 256) as u8,
        (v % 256) as u8,
    ]
}

/// `v` as four bytes, least significant first.
#[verifier::opaque]
pub open spec fn u32_le_bytes(v: u32) -> Seq<u8> {
    seq![
        (v % 256) as u8,
        ((v / 0x100) % 256) as u8,
        ((v / 0x1_0000) % 256) as u8,
        (v / 0x100_0000) as u8,
    ]
}

/// `v` as eight bytes, most significant first.
pub open spec fn u64_bytes(v: u64) -> Seq<u8> {
    u32_bytes((v / 0x1_0000_0000) as u32) + u32_bytes((v % 0x1_0000_0000) as u32)
}

/// The big-endian 16-bit number that starts at `i`.
#[verifier::opaque]
pub open spec fn u16_at(s: Seq<u8>, i: int) -> u16 {
    (s[i] * 256 + s[i + 1]) as u16
}

/// The little-endian 16-bit number that starts at `i`.
#[verifier::opaque]
pub open spec fn u16_le_at(s: Seq<u8>, i: int) -> u16 {
    (s[i] + s[i + 1] * 256) as u16
}

/// The big-endian 32-bit number that starts at `i`.
#[verifier::opaque]
pub open spec fn u32_at(s: Seq<u8>, i: int) -> u32 {
    (s[i] * 0x100_0000 + s[i + 1] * 0x1_0000 + s[i + 2] * 0x100 + s[i + 3]) as u32
}

/// The little-endian 32-bit number that starts at `i`.
#[verifier::opaque]
pub open spec fn u32_le_at(s: Seq<u8>, i: int) -> u32 {
    (s[i] + s[i + 1] * 0x100 + s[i + 2] * 0x1_0000 + s[i + 3] * 0x100_0000) as u32
}

/// The two's complement bit pattern of `v`.
pub open spec fn i16_bits(v: i16) -> u16 {
    if v < 0 {
        (v + 0x1_0000) as u16
    } else {
        v as u16
    }
}

/// The number whose two's complement bit pattern is `b`.
pub open spec fn i16_of_bits(b: u16) -> i16 {
    if b < 0x8000 {
        b as i16
    } else {
        (b - 0x1_0000) as i16
    }
}

/// The two's complement bit pattern of `v`.
pub open spec fn i32_bits(v: i32) -> u32 {
    if v < 0 {
        (v + 0x1_0000_0000) as u32
    } else {
        v as u32
    }
}

/// The number whose two's complement bit pattern is `b`.
pub open spec fn i32_of_bits(b: u32) -> i32 {
    if b < 0x8000_0000 {
        b as i32
    } else {
        (b - 0x1_0000_0000) as i32
    }
}

/// The number whose two's complement bit pattern is `b`.
pub open spec fn i8_of_bits(b: u8) -> i8 {
    if b < 0x80 {
        b as i8
    } else {
        (b - 0x100) as i8
    }
}

/// `n` zero bytes.
pub open spec fn zeros(n: int) -> Seq<u8> {
    Seq::new(n as nat, |i: int| 0u8)
}

/// How many bytes bring `n` up to the next multiple of `round`.
pub open spec fn padding(n: int, round: int) -> int {
    if n % round == 0 {
        0
    } else {
        round - n % round
    }
}

/// Positions are machine words: a sum that does not fit stays at the largest one.
pub open spec fn clamp_offset(n: int) -> int {
    if n > usize::MAX {
        usize::MAX as int
    } else {
        n
    }
}

/// `piece` lies in `s` at offset `at`.
#[verifier::opaque]
pub open spec fn holds_at(s: Seq<u8>, at: int, piece: Seq<u8>) -> bool {
    &&& 0 <= at
    &&& at + piece.len() <= s.len()
    &&& s.subrange(at, at + piece.len()) == piece
}

/// What a buffer of `capacity` bytes grows to by doubling until it has room for `need`.
pub open spec fn grown(capacity: int, need: int) -> int
    decreases
            (if capacity >= need {
                0
            } else {
                need - capacity
            }),
{
    if capacity >= need || capacity <= 0 {
        capacity
    } else {
        grown(2 * capacity, need)
    }
}

/// Growing twice is growing once.
pub broadcast proof fn lemma_grown_twice(capacity: int, first: int, need: int)
    requires
        capacity > 0,
        first <= need,
    ensures
        #[trigger] grown(grown(capacity, first), need) == grown(capacity, need),
    decreases
            (if capacity >= first {
                0
            } else {
                first - capacity
            }),
{
    if capacity < first {
        lemma_grown_twice(2 * capacity, first, need);
    }
}

/// All pieces one after the other.
pub open spec fn concat(pieces: Seq<Seq<u8>>) -> Seq<u8>
    decreases pieces.len(),
{
    if pieces.len() == 0 {
        Seq::empty()
    } else {
        concat(pieces.drop_last()) + pieces.last()
    }
}

pub fn bits_of_i16(v: i16) -> (b: u16)
    ensures
        b == i16_bits(v),
{
    if v < 0 {
        (v as i32 + 0x1_0000) as u16
    } else {
        v as u16
    }
}

pub fn i16_from_bits(b: u16) -> (v: i16)
    ensures
        v == i16_of_bits(b),
{
    if b < 0x8000 {
        b as i16
    } else {
        (b as i32 - 0x1_0000) as i16
    }
}

pub fn bits_of_i32(v: i32) -> (b: u32)
    ensures
        b == i32_bits(v),
{
    if v < 0 {
        (v as i64 + 0x1_0000_0000) as u32
    } else {
        v as u32
    }
}

pub fn i32_from_bits(b: u32) -> (v: i32)
    ensures
        v == i32_of_bits(b),
{
    if b < 0x8000_0000 {
        b as i32
    } else {
        (b as i64 - 0x1_0000_0000) as i32
    }
}

pub fn i8_from_bits(b: u8) -> (v: i8)
    ensures
        v == i8_of_bits(b),
{
    if b < 0x80 {
        b as i8
    } else {
        (b as i16 - 0x100) as i8
    }
}

/// The big-endian 16-bit number that starts at `start`.
pub fn u16_from(buffer: &[u8], start: usize) -> (v: u16)
    requires
        start + 2 <= buffer@.len(),
    ensures
        v == u16_at(buffer@, start as int),
{
    reveal(u16_at);
    let size: usize = buffer.len();
    buffer[start] as u16 * 256 + buffer[start + 1] as u16
}

/// The big-endian 32-bit number that starts at `start`.
pub fn u32_from(buffer: &[u8], start: usize) -> (v: u32)
    requires
        start + 4 <= buffer@.len(),
    ensures
        v == u32_at(buffer@, start as int),
{
    reveal(u32_at);
    let size: usize = buffer.len();
    buffer[start] as u32 * 0x100_0000 + buffer[start + 1] as u32 * 0x1_0000 + buffer[start
        + 2] as u32 * 0x100 + buffer[start + 3] as u32
}

/// How many bytes bring `n` up to the next multiple of `round`.
pub fn padding_for(n: usize, round: usize) -> (p: usize)
    requires
        round > 0,
    ensures
        p == padding(n as int, round as int),
        p < round,
{
    let rest: usize = n % round;
    if rest == 0 {
        0
    } else {
        round - rest
    }
}

/// How many bytes the code of a number takes.
pub broadcast proof fn lemma_u16_bytes_len(v: u16)
    ensures
        #[trigger] u16_bytes(v).len() == 2,
{
    reveal(u16_bytes);
}

/// How many bytes the code of a number takes.
pub broadcast proof fn lemma_u16_le_bytes_len(v: u16)
    ensures
        #[trigger] u16_le_bytes(v).len() == 2,
{
    reveal(u16_le_bytes);
}

/// How many bytes the code of a number takes.
pub broadcast proof fn lemma_u32_bytes_len(v: u32)
    ensures
        #[trigger] u32_bytes(v).len() == 4,
{
    reveal(u32_bytes);
}

/// How many bytes the code of a number takes.
pub broadcast proof fn lemma_u32_le_bytes_len(v: u32)
    ensures
        #[trigger] u32_le_bytes(v).len() == 4,
{
    reveal(u32_le_bytes);
}

/// The lengths of the codes of numbers, and the deep view of bytes.
pub broadcast group group_bytes {
    lemma_u16_bytes_len,
    lemma_u16_le_bytes_len,
    lemma_u32_bytes_len,
    lemma_u32_le_bytes_len,
    lemma_bytes_deep_view,
    lemma_grown_twice,
}

/// The deep view of bytes is their view.
pub broadcast proof fn lemma_bytes_deep_view(v: Vec<u8>)
    ensures
        #[trigger] v.deep_view() == v@,
{
    assert(v.deep_view() =~= v@);
}

/// Two pieces one after the other lie where each of them lies.
pub proof fn lemma_holds_at_split(s: Seq<u8>, at: int, a: Seq<u8>, b: Seq<u8>)
    requires
        holds_at(s, at, a + b),
    ensures
        holds_at(s, at, a),
        holds_at(s, at + a.len(), b),
        0 <= at,
        at + a.len() + b.len() <= s.len(),
{
    reveal(holds_at);
    let whole = s.subrange(at, at + (a + b).len());
    assert(s.subrange(at, at + a.len()) =~= (a + b).take(a.len() as int)) by {
        assert(whole.take(a.len() as int) =~= s.subrange(at, at + a.len()));
    }
    assert((a + b).take(a.len() as int) =~= a);
    assert(s.subrange(at + a.len(), at + a.len() + b.len()) =~= whole.skip(a.len() as int));
    assert((a + b).skip(a.len() as int) =~= b);
}

/// One more piece at the end.
pub proof fn lemma_concat_push(pieces: Seq<Seq<u8>>, piece: Seq<u8>)
    ensures
        concat(pieces.push(piece)) == concat(pieces) + piece,
{
    assert(pieces.push(piece).drop_last() =~= pieces);
}

/// The first `n + 1` pieces are the first `n` and one more.
pub proof fn lemma_concat_take(pieces: Seq<Seq<u8>>, n: int)
    requires
        0 <= n < pieces.len(),
    ensures
        concat(pieces.take(n + 1)) == concat(pieces.take(n)) + pieces[n],
{
    assert(pieces.take(n + 1) =~= pieces.take(n).push(pieces[n]));
    lemma_concat_push(pieces.take(n), pieces[n]);
}

/// The first pieces are not longer than all of them.
pub proof fn lemma_concat_prefix(pieces: Seq<Seq<u8>>, n: int)
    requires
        0 <= n <= pieces.len(),
    ensures
        concat(pieces.take(n)).len() <= concat(pieces).len(),
{
    assert(pieces =~= pieces.take(n) + pieces.skip(n));
    lemma_concat_append(pieces.take(n), pieces.skip(n));
}

/// Two lists of pieces one after the other.
pub proof fn lemma_concat_append(a: Seq<Seq<u8>>, b: Seq<Seq<u8>>)
    ensures
        concat(a + b) == concat(a) + concat(b),
    decreases b.len(),
{
    if b.len() == 0 {
        assert(a + b =~= a);
        assert(concat(a) + concat(b) =~= concat(a));
    } else {
        assert((a + b).drop_last() =~= a + b.drop_last());
        lemma_concat_append(a, b.drop_last());
        assert(concat(a) + (concat(b.drop_last()) + b.last()) =~= concat(a) + concat(
            b.drop_last(),
        ) + b.last());
    }
}

/// Each of the pieces lies behind those before it.
pub proof fn lemma_holds_at_piece(s: Seq<u8>, at: int, pieces: Seq<Seq<u8>>, n: int)
    requires
        holds_at(s, at, concat(pieces)),
        0 <= n < pieces.len(),
    ensures
        holds_at(s, at + concat(pieces.take(n)).len(), pieces[n]),
        holds_at(s, at, concat(pieces.take(n))),
    decreases pieces.len(),
{
    lemma_holds_at_split(s, at, concat(pieces.drop_last()), pieces.last());
    if n == pieces.len() - 1 {
        assert(pieces.take(n) =~= pieces.drop_last());
    } else {
        lemma_holds_at_piece(s, at, pieces.drop_last(), n);
        assert(pieces.drop_last().take(n) =~= pieces.take(n));
    }
}

/// A piece lies behind what comes before it.
pub proof fn lemma_piece_holds(s: Seq<u8>, before: Seq<u8>, piece: Seq<u8>, after: Seq<u8>)
    requires
        s =~= before + piece + after,
    ensures
        holds_at(s, before.len() as int, piece),
{
    reveal(holds_at);
    assert(s.subrange(before.len() as int, before.len() as int + piece.len()) =~= piece);
}

/// Where a piece lies there is room for it.
pub proof fn lemma_holds_at_room(s: Seq<u8>, at: int, piece: Seq<u8>)
    requires
        holds_at(s, at, piece),
    ensures
        0 <= at,
        at + piece.len() <= s.len(),
        s.subrange(at, at + piece.len()) == piece,
{
    reveal(holds_at);
}

/// A piece is where it is, byte by byte.
pub proof fn lemma_holds_at_index(s: Seq<u8>, at: int, piece: Seq<u8>, i: int)
    requires
        holds_at(s, at, piece),
        0 <= i < piece.len(),
    ensures
        s[at + i] == piece[i],
{
    reveal(holds_at);
    assert(s.subrange(at, at + piece.len())[i] == s[at + i]);
}

/// A 16-bit number read where it was written is the number.
pub proof fn lemma_u16_at(s: Seq<u8>, at: int, v: u16)
    requires
        holds_at(s, at, u16_bytes(v)),
    ensures
        u16_at(s, at) == v,
        0 <= at,
        at + 2 <= s.len(),
{
    reveal(u16_bytes);
    reveal(u16_at);
    lemma_holds_at_room(s, at, u16_bytes(v));
    lemma_holds_at_index(s, at, u16_bytes(v), 0);
    lemma_holds_at_index(s, at, u16_bytes(v), 1);
}

/// A little-endian 16-bit number read where it was written is the number.
pub proof fn lemma_u16_le_at(s: Seq<u8>, at: int, v: u16)
    requires
        holds_at(s, at, u16_le_bytes(v)),
    ensures
        u16_le_at(s, at) == v,
        0 <= at,
        at + 2 <= s.len(),
{
    reveal(u16_le_bytes);
    reveal(u16_le_at);
    lemma_holds_at_room(s, at, u16_le_bytes(v));
    lemma_holds_at_index(s, at, u16_le_bytes(v), 0);
    lemma_holds_at_index(s, at, u16_le_bytes(v), 1);
}

proof fn lemma_u32_parts(v: u32)
    by (bit_vector)
    ensures
        (v / 0x100_0000) * 0x100_0000 + ((v / 0x1_0000) % 256) * 0x1_0000 + ((v / 0x100) % 256)
            * 0x100 + v % 256 == v,
        v / 0x100_0000 < 256,
        (v / 0x1_0000) % 256 < 256,
        (v / 0x100) % 256 < 256,
        v % 256 < 256,
{
}

/// A 32-bit number read where it was written is the number.
pub proof fn lemma_u32_at(s: Seq<u8>, at: int, v: u32)
    requires
        holds_at(s, at, u32_bytes(v)),
    ensures
        u32_at(s, at) == v,
        0 <= at,
        at + 4 <= s.len(),
{
    reveal(u32_bytes);
    reveal(u32_at);
    lemma_holds_at_room(s, at, u32_bytes(v));
    lemma_u32_parts(v);
    lemma_holds_at_index(s, at, u32_bytes(v), 0);
    lemma_holds_at_index(s, at, u32_bytes(v), 1);
    lemma_holds_at_index(s, at, u32_bytes(v), 2);
    lemma_holds_at_index(s, at, u32_bytes(v), 3);
}

/// A little-endian 32-bit number read where it was written is the number.
pub proof fn lemma_u32_le_at(s: Seq<u8>, at: int, v: u32)
    requires
        holds_at(s, at, u32_le_bytes(v)),
    ensures
        u32_le_at(s, at) == v,
        0 <= at,
        at + 4 <= s.len(),
{
    reveal(u32_le_bytes);
    reveal(u32_le_at);
    lemma_holds_at_room(s, at, u32_le_bytes(v));
    lemma_u32_parts(v);
    lemma_holds_at_index(s, at, u32_le_bytes(v), 0);
    lemma_holds_at_index(s, at, u32_le_bytes(v), 1);
    lemma_holds_at_index(s, at, u32_le_bytes(v), 2);
    lemma_holds_at_index(s, at, u32_le_bytes(v), 3);
}

/// The bit pattern of a signed number gives the number back.
pub proof fn lemma_signed_bits(v: i16, w: i32)
    ensures
        i16_of_bits(i16_bits(v)) == v,
        i32_of_bits(i32_bits(w)) == w,
{
}

} // verus!
