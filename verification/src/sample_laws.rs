//! What the samples of a stored channel are: how each way to store them is undone, for
//! every depth and in every row.

use vstd::arithmetic::div_mod::lemma_fundamental_div_mod;
use vstd::arithmetic::div_mod::lemma_fundamental_div_mod_converse;
use vstd::prelude::*;

use crate::bytes;
use crate::codec;
use crate::number_laws;
use crate::packbits;
use crate::pixels;
use crate::samples;
use crate::zlib;

verus! {

broadcast use crate::bytes::group_bytes;

/// How many bytes a sample takes.
pub open spec fn sample_size(depth: u32) -> int {
    if depth == 32 {
        4
    } else if depth == 16 {
        2
    } else {
        1
    }
}

/// The byte that the `k`-th of some samples comes to: the sample of 8 bits, the upper
/// half of one of 16 bits, or the byte of one of 32 bits.
pub open spec fn sample_byte(data: Seq<u8>, depth: u32, k: int) -> u8 {
    if depth == 32 {
        samples::byte_of_float(number_laws::number32(data, 4 * k) as u32)
    } else if depth == 16 {
        (number_laws::number16(data, 2 * k) / 256) as u8
    } else {
        data[k]
    }
}

/// The bytes that samples come to, one after the other.
pub open spec fn sample_plane(data: Seq<u8>, depth: u32, count: int) -> Seq<u8> {
    Seq::new(count as nat, |k: int| sample_byte(data, depth, k))
}

/// Bytes in rows of `width`, each but the first of a row as the difference to the one
/// before it, modulo 256.
pub open spec fn differences(data: Seq<u8>, width: int) -> Seq<u8> {
    Seq::new(
        data.len(),
        |i: int|
            if i % width == 0 {
                data[i]
            } else {
                ((data[i] - data[i - 1]) % 256) as u8
            },
    )
}

/// The difference that stands for the `i`-th of 16-bit samples in rows of `width`: to the
/// sample before it, modulo 65536, and the sample itself at the start of a row.
pub open spec fn wide_difference(data: Seq<u8>, width: int, i: int) -> int {
    if i % width == 0 {
        number_laws::number16(data, 2 * i)
    } else {
        (number_laws::number16(data, 2 * i) - number_laws::number16(data, 2 * (i - 1))) % 65536
    }
}

/// 16-bit samples in rows of `width` as differences, each in two bytes, the upper first.
pub open spec fn wide_differences(data: Seq<u8>, width: int) -> Seq<u8> {
    Seq::new(
        data.len(),
        |j: int|
            if j % 2 == 0 {
                (wide_difference(data, width, j / 2) / 256) as u8
            } else {
                (wide_difference(data, width, j / 2) % 256) as u8
            },
    )
}

/// 32-bit samples in rows of `width`: of every row the first bytes of its samples, then
/// the second, the third and the fourth ones.
pub open spec fn byte_planes(data: Seq<u8>, width: int) -> Seq<u8> {
    Seq::new(
        data.len(),
        |j: int|
            {
                let y = j / (4 * width);
                let in_row = j % (4 * width);
                data[4 * (width * y + in_row % width) + in_row / width]
            },
    )
}

/// The bytes that are compressed for some samples.
pub open spec fn zip_form(data: Seq<u8>, depth: u32, width: int, prediction: bool) -> Seq<u8> {
    if depth == 32 {
        if prediction {
            differences(byte_planes(data, width), 4 * width)
        } else {
            byte_planes(data, width)
        }
    } else if !prediction {
        data
    } else if depth == 16 {
        wide_differences(data, width)
    } else {
        differences(data, width)
    }
}

/// Bytes that are stored as differences are those that the differences were taken of, in
/// every row.
pub proof fn law_differences_undone(data: Seq<u8>, width: int, height: int)
    requires
        width > 0,
        data.len() == width * height,
    ensures
        codec::unpredicted(differences(data, width), width, height) == data,
{
    let code = differences(data, width);
    assert forall|i: int| 0 <= i < data.len() implies #[trigger] codec::unpredicted(
        code,
        width,
        height,
    )[i] == data[i] by {
        lemma_row_sum(data, width, i);
    }
    assert(codec::unpredicted(code, width, height) =~= data);
}

proof fn lemma_row_sum(data: Seq<u8>, width: int, i: int)
    requires
        width > 0,
        0 <= i < data.len(),
    ensures
        codec::row_sum(differences(data, width), width, i) == data[i],
    decreases i,
{
    if i > 0 && i % width != 0 {
        lemma_row_sum(data, width, i - 1);
    }
}

/// 16-bit samples that are stored as differences are those that the differences were
/// taken of, in every row.
pub proof fn law_wide_differences_undone(data: Seq<u8>, width: int, height: int)
    requires
        width > 0,
        0 <= height,
        data.len() == 2 * (width * height),
    ensures
        ({
            let found = codec::unpredicted_16(
                codec::wide_samples(wide_differences(data, width)),
                width,
                height,
            );
            &&& found.len() == width * height
            &&& forall|i: int| 0 <= i < width * height ==> #[trigger] found[i]
                == number_laws::number16(data, 2 * i)
        }),
{
    let wide = codec::wide_samples(wide_differences(data, width));
    assert forall|i: int| 0 <= i < width * height implies #[trigger] codec::unpredicted_16(
        wide,
        width,
        height,
    )[i] == number_laws::number16(data, 2 * i) by {
        lemma_row_sum_16(data, width, i);
    }
}

proof fn lemma_wide_difference(data: Seq<u8>, width: int, i: int)
    requires
        width > 0,
        0 <= i,
        2 * i + 1 < data.len(),
    ensures
        codec::wide_samples(wide_differences(data, width))[i] == wide_difference(data, width, i),
{
    let code = wide_differences(data, width);
    let d = wide_difference(data, width, i);
    number_laws::lemma_at(code, 2 * i);
    number_laws::lemma_number_range(data, 2 * i);
    assert(0 <= d < 65536);
    assert((2 * i) / 2 == i && (2 * i + 1) / 2 == i);
    assert(code[2 * i] == d / 256);
    assert(code[2 * i + 1] == d % 256);
}

proof fn lemma_row_sum_16(data: Seq<u8>, width: int, i: int)
    requires
        width > 0,
        0 <= i,
        2 * i + 1 < data.len(),
    ensures
        codec::row_sum_16(codec::wide_samples(wide_differences(data, width)), width, i)
            == number_laws::number16(data, 2 * i),
    decreases i,
{
    lemma_wide_difference(data, width, i);
    number_laws::lemma_number_range(data, 2 * i);
    if i > 0 && i % width != 0 {
        lemma_row_sum_16(data, width, i - 1);
        number_laws::lemma_number_range(data, 2 * (i - 1));
        let a = number_laws::number16(data, 2 * (i - 1));
        let b = number_laws::number16(data, 2 * i);
        assert((a + (b - a) % 65536) % 65536 == b);
        let wide = codec::wide_samples(wide_differences(data, width));
        assert(wide[i] == (b - a) % 65536);
        assert(codec::row_sum_16(wide, width, i) == ((codec::row_sum_16(wide, width, i - 1)
            + wide[i]) % 0x1_0000) as u16);
    } else if i == 0 {
        vstd::arithmetic::div_mod::lemma_small_mod(0, width as nat);
    }
}

proof fn lemma_plane_place(width: int, y: int, x: int, b: int)
    requires
        width > 0,
        0 <= x < width,
        0 <= y,
        0 <= b < 4,
    ensures
        ({
            let j = 4 * width * y + x + b * width;
            &&& j / (4 * width) == y
            &&& (j % (4 * width)) / width == b
            &&& (j % (4 * width)) % width == x
        }),
{
    let j = 4 * width * y + x + b * width;
    let in_row = x + b * width;
    assert(0 <= in_row < 4 * width) by (nonlinear_arith)
        requires
            0 <= x < width,
            0 <= b < 4,
            in_row == x + b * width,
    ;
    assert(j == y * (4 * width) + in_row) by (nonlinear_arith)
        requires
            j == 4 * width * y + x + b * width,
            in_row == x + b * width,
    ;
    lemma_fundamental_div_mod_converse(j, 4 * width, y, in_row);
    lemma_fundamental_div_mod_converse(in_row, width, b, x);
}

proof fn lemma_planar(data: Seq<u8>, width: int, height: int, k: int)
    requires
        width > 0,
        height >= 0,
        data.len() == 4 * (width * height),
        0 <= k <= width * height,
    ensures
        codec::planar_samples(byte_planes(data, width), width, height, k) == sample_plane(
            data,
            32,
            width * height,
        ).skip(k),
    decreases width * height - k,
{
    let code = byte_planes(data, width);
    let all = sample_plane(data, 32, width * height);
    if k < width * height {
        let y = k / width;
        let x = k % width;
        lemma_fundamental_div_mod(k, width);
        assert(0 <= y < height) by (nonlinear_arith)
            requires
                k == width * y + x,
                0 <= x < width,
                0 <= k < width * height,
                width > 0,
        ;
        let a = 4 * width * y + x;
        assert(codec::planar_end(width, k) == a + 3 * width);
        assert(a + 3 * width < 4 * (width * height)) by (nonlinear_arith)
            requires
                a == 4 * width * y + x,
                0 <= x < width,
                y + 1 <= height,
                width > 0,
        ;
        assert(0 <= 4 * width * y) by (nonlinear_arith)
            requires
                width > 0,
                0 <= y,
        ;
        assert forall|b: int| 0 <= b < 4 implies #[trigger] code[a + b * width] == data[4 * k
            + b] by {
            lemma_plane_place(width, y, x, b);
            assert(b * width <= 3 * width) by (nonlinear_arith)
                requires
                    b <= 3,
                    width > 0,
            ;
            assert(0 <= b * width) by (nonlinear_arith)
                requires
                    b >= 0,
                    width > 0,
            ;
        }
        assert(code[a + 0 * width] == data[4 * k]);
        assert(code[a + 1 * width] == data[4 * k + 1]);
        assert(code[a + 2 * width] == data[4 * k + 2]);
        assert(code[a + 3 * width] == data[4 * k + 3]);
        assert(data[4 * k] * 0x100_0000 + data[4 * k + 1] * 0x1_0000 + data[4 * k + 2] * 0x100
            + data[4 * k + 3] == number_laws::number32(data, 4 * k));
        assert(codec::planar_sample(code, width, k) == all[k]);
        lemma_planar(data, width, height, k + 1);
        assert(seq![all[k]] + all.skip(k + 1) =~= all.skip(k));
    } else {
        assert(all.skip(k) =~= Seq::<u8>::empty());
    }
}

/// The samples of a decompressed channel are those that it was made from, for every
/// depth, in every row, with and without differences.
pub proof fn law_zip_samples(data: Seq<u8>, depth: u32, width: int, height: int, prediction: bool)
    requires
        depth == 8 || depth == 16 || depth == 32,
        width > 0,
        height >= 0,
        data.len() == sample_size(depth) * (width * height),
    ensures
        codec::zip_samples(
            zip_form(data, depth, width, prediction),
            width * height,
            width,
            height,
            depth,
            prediction,
        ) == sample_plane(data, depth, width * height),
        zip_form(data, depth, width, prediction).len() == codec::samples_size(width, height, depth),
{
    let form = zip_form(data, depth, width, prediction);
    let all = sample_plane(data, depth, width * height);
    let found = codec::zip_samples(form, width * height, width, height, depth, prediction);
    assert(0 <= width * height) by (nonlinear_arith)
        requires
            width > 0,
            height >= 0,
    ;
    if depth == 8 {
        if prediction {
            law_differences_undone(data, width, height);
        }
        assert(found =~= all);
    } else if depth == 16 {
        if prediction {
            law_wide_differences_undone(data, width, height);
        }
        assert forall|k: int| 0 <= k < width * height implies found[k] == #[trigger] all[k] by {
            number_laws::lemma_at(data, 2 * k);
            number_laws::lemma_number_range(data, 2 * k);
        }
        assert(found =~= all);
    } else {
        let planes = byte_planes(data, width);
        assert(4 * (width * height) == (4 * width) * height) by (nonlinear_arith);
        if prediction {
            law_differences_undone(planes, 4 * width, height);
        }
        lemma_planar(data, width, height, 0);
        assert(found =~= all);
    }
}

/// Samples end up in their places: the first one in the place `offset`, the next one
/// `step` places behind it, and so on; all other places keep what they hold.
pub open spec fn filled(
    before: Seq<u8>,
    after: Seq<u8>,
    offset: int,
    step: int,
    plane: Seq<u8>,
) -> bool {
    &&& after.len() == before.len()
    &&& forall|k: int|
        0 <= k < plane.len() && offset + step * k < before.len() ==> after[offset + step * k]
            == #[trigger] plane[k]
    &&& forall|i: int|
        0 <= i < before.len() && (i < offset || (i - offset) % step != 0 || (i - offset) / step
            >= plane.len()) ==> #[trigger] after[i] == before[i]
}

pub proof fn lemma_filled(before: Seq<u8>, offset: int, step: int, plane: Seq<u8>)
    requires
        0 <= offset,
        step >= 1,
    ensures
        filled(before, pixels::stored(before, offset, step, plane), offset, step, plane),
{
    let after = pixels::stored(before, offset, step, plane);
    pixels::lemma_stored(before, offset, step, plane);
    assert forall|i: int|
        0 <= i < before.len() && (i < offset || (i - offset) % step != 0 || (i - offset) / step
            >= plane.len()) implies #[trigger] after[i] == before[i] by {
        assert forall|k: int| 0 <= k < plane.len() implies i != #[trigger] (offset + step * k) by {
            assert(0 <= step * k) by (nonlinear_arith)
                requires
                    0 <= k,
                    step >= 1,
            ;
            if i == offset + step * k {
                lemma_fundamental_div_mod_converse(i - offset, step, k, 0);
            }
        }
    }
    assert forall|k: int| 0 <= k < plane.len() && offset + step * k < before.len() implies after[offset
        + step * k] == #[trigger] plane[k] by {}
}

/// A decompressed channel is stored sample by sample: every row of it, for every depth,
/// with and without differences.
pub proof fn law_inflated_channel_stored(
    before: Seq<u8>,
    data: Seq<u8>,
    depth: u32,
    width: int,
    height: int,
    step: int,
    offset: int,
    prediction: bool,
)
    requires
        depth == 8 || depth == 16 || depth == 32,
        width > 0,
        height >= 0,
        data.len() == sample_size(depth) * (width * height),
        0 <= offset < step,
    ensures
        filled(
            before,
            codec::inflated_stored(
                before,
                width * height,
                zip_form(data, depth, width, prediction),
                width,
                height,
                depth,
                step,
                offset,
                prediction,
            ),
            offset,
            step,
            sample_plane(data, depth, width * height),
        ),
{
    law_zip_samples(data, depth, width, height, prediction);
    lemma_filled(before, offset, step, sample_plane(data, depth, width * height));
}

/// A compressed stream, with a zlib header or bare, gives these bytes.
pub open spec fn inflates_to(code: Seq<u8>, data: Seq<u8>) -> bool {
    ||| zlib::zlib_length(code) is Some && (zlib::decompressed(code, data.len(), true) matches Some(
        found,
    ) && found.1 == data)
    ||| zlib::zlib_length(code) is None && zlib::deflate_length(code) is Some && (
    zlib::decompressed(code, data.len(), false) matches Some(found) && found.1 == data)
}

/// A part of a packed row: samples as they are, a sample that is repeated, or nothing.
pub enum Packet {
    Literal(Seq<u8>),
    Run(int, u8),
    Nothing,
}

/// A part is possible: from 1 to 128 samples as they are, or from 2 to 128 repetitions.
pub open spec fn packet_wf(p: Packet) -> bool {
    match p {
        Packet::Literal(s) => 1 <= s.len() <= 128,
        Packet::Run(n, _) => 2 <= n <= 128,
        Packet::Nothing => true,
    }
}

/// The samples that a part stands for.
pub open spec fn packet_samples(p: Packet) -> Seq<u8> {
    match p {
        Packet::Literal(s) => s,
        Packet::Run(n, b) => Seq::new(n as nat, |i: int| b),
        Packet::Nothing => Seq::empty(),
    }
}

/// A part in bytes: how many samples follow, less one; or 257 less how often the sample
/// that follows is repeated; or 128.
pub open spec fn packet_code(p: Packet) -> Seq<u8> {
    match p {
        Packet::Literal(s) => seq![(s.len() - 1) as u8] + s,
        Packet::Run(n, b) => seq![(257 - n) as u8, b],
        Packet::Nothing => seq![128u8],
    }
}

/// A packed row of some parts.
pub open spec fn row_code(row: Seq<Packet>) -> Seq<u8>
    decreases row.len(),
{
    if row.len() == 0 {
        Seq::empty()
    } else {
        packet_code(row[0]) + row_code(row.skip(1))
    }
}

/// The samples that some parts stand for.
pub open spec fn row_samples(row: Seq<Packet>) -> Seq<u8>
    decreases row.len(),
{
    if row.len() == 0 {
        Seq::empty()
    } else {
        packet_samples(row[0]) + row_samples(row.skip(1))
    }
}

/// All parts of a row are possible.
pub open spec fn row_wf(row: Seq<Packet>) -> bool {
    forall|i: int| 0 <= i < row.len() ==> packet_wf(#[trigger] row[i])
}

/// A packed row of any parts unpacks to the samples of these parts, of which no more than
/// `width` count.
pub proof fn law_packets_unpacked(row: Seq<Packet>, width: int)
    requires
        row_wf(row),
        0 <= width,
    ensures
        packbits::unpacked(row_code(row), width) == (if row_samples(row).len() <= width {
            row_samples(row)
        } else {
            row_samples(row).take(width)
        }),
    decreases row.len(),
{
    let code = row_code(row);
    let all = row_samples(row);
    if row.len() == 0 {
        assert(packbits::unpacked(code, width) =~= Seq::<u8>::empty());
    } else if width == 0 {
        assert(all.take(0) =~= Seq::<u8>::empty());
        if all.len() == 0 {
            assert(all =~= Seq::<u8>::empty());
        }
    } else {
        let rest = row.skip(1);
        assert(packet_wf(row[0]));
        assert forall|i: int| 0 <= i < rest.len() implies packet_wf(#[trigger] rest[i]) by {
            assert(packet_wf(row[i + 1]));
        }
        match row[0] {
            Packet::Literal(s) => {
                let n = s.len() as int;
                assert(code[0] == n - 1);
                assert(code.subrange(1, 1 + n) =~= s);
                assert(code.skip(1 + n) =~= row_code(rest));
                if n <= width {
                    law_packets_unpacked(rest, width - n);
                    assert(s + row_samples(rest).take(width - n) =~= all.take(width)
                        || row_samples(rest).len() <= width - n);
                } else {
                    assert(code.subrange(1, 1 + width) =~= all.take(width));
                }
            },
            Packet::Run(n, b) => {
                assert(code[0] == 257 - n);
                assert(code[1] == b);
                assert(code.skip(2) =~= row_code(rest));
                let m = if n < width {
                    n
                } else {
                    width
                };
                law_packets_unpacked(rest, width - m);
                let run = Seq::new(m as nat, |i: int| code[1]);
                if n <= width {
                    assert(run =~= packet_samples(row[0]));
                    assert(run + row_samples(rest).take(width - n) =~= all.take(width)
                        || row_samples(rest).len() <= width - n);
                } else {
                    assert(packbits::unpacked(code.skip(2), 0) =~= Seq::<u8>::empty());
                    assert(run + Seq::<u8>::empty() =~= all.take(width));
                }
            },
            Packet::Nothing => {
                assert(code[0] == 128);
                assert(code.skip(1) =~= row_code(rest));
                law_packets_unpacked(rest, width);
                assert(Seq::<u8>::empty() + row_samples(rest) =~= row_samples(rest));
            },
        }
    }
}

} // verus!
