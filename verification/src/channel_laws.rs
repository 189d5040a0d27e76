//! Where the samples of stored channels end up in pixels, in whatever way and with
//! whatever depth they are stored.

use vstd::prelude::*;

use crate::budget;
use crate::bytes;
use crate::codec;
use crate::error::ErrorView;
use crate::number_laws;
use crate::pixels;
use crate::psd::Compression;
use crate::reader::ReaderState;
use crate::rle;
use crate::sample_laws;
use crate::sample_laws::Packet;

verus! {

broadcast use crate::bytes::group_bytes;

/// Samples of several channels end up in pixels of `step` samples, each channel in its
/// place of every pixel; a channel without a place is passed over, and what belongs to
/// none of the channels stays as it is.
pub open spec fn spread(
    before: Seq<u8>,
    after: Seq<u8>,
    places: Seq<usize>,
    step: int,
    planes: Seq<Seq<u8>>,
    n: int,
) -> bool {
    &&& after.len() == before.len()
    &&& forall|c: int, k: int|
        #![trigger planes[c][k]]
        0 <= c < n && places[c] < step && 0 <= k < planes[c].len() && places[c] + step * k
            < before.len() ==> after[places[c] + step * k] == planes[c][k]
    &&& forall|i: int|
        0 <= i < before.len() && (forall|c: int|
            0 <= c < n ==> #[trigger] places[c] >= step || i % step != places[c] || i / step
                >= planes[c].len()) ==> #[trigger] after[i] == before[i]
}

/// No two channels have the same place.
pub open spec fn places_distinct(places: Seq<usize>, n: int) -> bool {
    forall|a: int, b: int| 0 <= a < b < n ==> #[trigger] places[a] != #[trigger] places[b]
}

proof fn lemma_place(offset: int, step: int, k: int)
    requires
        0 <= offset < step,
        0 <= k,
    ensures
        (offset + step * k) % step == offset,
        (offset + step * k) / step == k,
        0 <= step * k,
{
    assert(offset + step * k == k * step + offset) by (nonlinear_arith);
    vstd::arithmetic::div_mod::lemma_fundamental_div_mod_converse(
        offset + step * k,
        step,
        k,
        offset,
    );
    assert(0 <= step * k) by (nonlinear_arith)
        requires
            0 <= k,
            0 < step,
    ;
}

/// One more channel that has a place.
pub proof fn lemma_spread_more(
    before: Seq<u8>,
    mid: Seq<u8>,
    after: Seq<u8>,
    places: Seq<usize>,
    step: int,
    planes: Seq<Seq<u8>>,
    n: int,
)
    requires
        0 < n <= planes.len(),
        n <= places.len(),
        places_distinct(places, n),
        places[n - 1] < step,
        spread(before, mid, places, step, planes, n - 1),
        sample_laws::filled(mid, after, places[n - 1] as int, step, planes[n - 1]),
    ensures
        spread(before, after, places, step, planes, n),
{
    let o = places[n - 1] as int;
    assert forall|c: int, k: int|
        #![trigger planes[c][k]]
        0 <= c < n && places[c] < step && 0 <= k < planes[c].len() && places[c] + step * k
            < before.len() implies after[places[c] + step * k] == planes[c][k] by {
        let i = places[c] + step * k;
        lemma_place(places[c] as int, step, k);
        if c == n - 1 {
            assert(after[o + step * k] == planes[n - 1][k]);
        } else {
            assert(places[c] != places[n - 1]);
            assert(mid[i] == planes[c][k]);
            lemma_other_place(i, o, step);
            assert(after[i] == mid[i]);
        }
    }
    assert forall|i: int|
        0 <= i < before.len() && (forall|c: int|
            0 <= c < n ==> #[trigger] places[c] >= step || i % step != places[c] || i / step
                >= planes[c].len()) implies #[trigger] after[i] == before[i] by {
        assert(i % step != places[n - 1] || i / step >= planes[n - 1].len());
        lemma_other_place(i, o, step);
        assert(after[i] == mid[i]);
        assert(mid[i] == before[i]);
    }
}

proof fn lemma_other_place(i: int, o: int, step: int)
    requires
        0 <= o < step,
        0 <= i,
    ensures
        i < o || (i - o) % step != 0 || (i % step == o && (i - o) / step == i / step),
{
    if i >= o && (i - o) % step == 0 {
        let q = (i - o) / step;
        vstd::arithmetic::div_mod::lemma_fundamental_div_mod(i - o, step);
        assert(i == q * step + o) by (nonlinear_arith)
            requires
                i - o == step * q,
        ;
        vstd::arithmetic::div_mod::lemma_fundamental_div_mod_converse(i, step, q, o);
    }
}

/// How many bytes an entry of the table of row lengths takes.
pub open spec fn entry_bytes(large: bool) -> int {
    if large {
        4
    } else {
        2
    }
}

/// How many bytes the first `n` packed rows take.
pub open spec fn rows_end(rows: Seq<Seq<Packet>>, n: int) -> int
    decreases n,
{
    if n <= 0 {
        0
    } else {
        rows_end(rows, n - 1) + sample_laws::row_code(rows[n - 1]).len()
    }
}

/// Packed rows lie at a place: first the length of every row, in two bytes or in the
/// large document format in four, then the rows one after the other.
pub open spec fn packed_at(
    buffer: Seq<u8>,
    at: int,
    rows: Seq<Seq<Packet>>,
    large: bool,
) -> bool {
    let e = entry_bytes(large);
    let start = at + e * rows.len();
    &&& 0 <= at
    &&& start <= buffer.len()
    &&& forall|i: int|
        0 <= i < rows.len() ==> {
            let code = sample_laws::row_code(#[trigger] rows[i]);
            let from = start + rows_end(rows, i);
            &&& sample_laws::row_wf(rows[i])
            &&& code.len() == (if large {
                number_laws::number32(buffer, at + 4 * i)
            } else {
                number_laws::number16(buffer, at + 2 * i)
            })
            &&& from + code.len() <= buffer.len()
            &&& forall|k: int| 0 <= k < code.len() ==> buffer[from + k] == #[trigger] code[k]
        }
}

/// The rows of a channel, from the `first` one on, stand for its samples.
pub open spec fn rows_stand_for(
    rows: Seq<Seq<Packet>>,
    first: int,
    height: int,
    row_bytes: int,
    data: Seq<u8>,
) -> bool {
    &&& data.len() == height * row_bytes
    &&& forall|y: int|
        0 <= y < height ==> sample_laws::row_samples(#[trigger] rows[first + y]) == data.subrange(
            y * row_bytes,
            (y + 1) * row_bytes,
        )
}

proof fn lemma_rows_end(rows: Seq<Seq<Packet>>, n: int)
    ensures
        0 <= rows_end(rows, n),
    decreases n,
{
    if n > 0 {
        lemma_rows_end(rows, n - 1);
    }
}

/// Packed rows stand for their samples where no row stands for more than `bound` of them.
pub proof fn lemma_rows_read(
    r: ReaderState,
    start: int,
    rows: Seq<Seq<Packet>>,
    lengths: Seq<usize>,
    first: int,
    n: int,
    height: int,
    row_bytes: int,
    bound: int,
    data: Seq<u8>,
)
    requires
        row_bytes <= bound,
        0 <= first,
        0 <= n <= height,
        first + height <= rows.len(),
        0 <= row_bytes,
        lengths.len() == rows.len(),
        0 <= start,
        forall|i: int|
            0 <= i < rows.len() ==> {
                let code = sample_laws::row_code(#[trigger] rows[i]);
                let from = start + rows_end(rows, i);
                &&& sample_laws::row_wf(rows[i])
                &&& lengths[i] == code.len()
                &&& from + code.len() <= r.buffer.len()
                &&& forall|k: int| 0 <= k < code.len() ==> r.buffer[from + k]
                    == #[trigger] code[k]
            },
        r.offset == start + rows_end(rows, first),
        rows_stand_for(rows, first, height, row_bytes, data),
    ensures
        rle::get_rows(r, lengths, first, n, bound) == Ok::<(Seq<u8>, ReaderState), ErrorView>(
            (
                data.take(n * row_bytes),
                ReaderState { offset: start + rows_end(rows, first + n), ..r },
            ),
        ),
        0 <= n * row_bytes <= data.len(),
    decreases n,
{
    assert(0 <= n * row_bytes <= height * row_bytes) by (nonlinear_arith)
        requires
            0 <= n <= height,
            0 <= row_bytes,
    ;
    if n > 0 {
        lemma_rows_read(r, start, rows, lengths, first, n - 1, height, row_bytes, bound, data);
        let i = first + n - 1;
        let code = sample_laws::row_code(rows[i]);
        let from = start + rows_end(rows, i);
        lemma_rows_end(rows, i);
        assert((n - 1) * row_bytes + row_bytes == n * row_bytes) by (nonlinear_arith);
        assert(r.buffer.subrange(from, from + code.len()) =~= code);
        let y = n - 1;
        assert(sample_laws::row_samples(rows[first + y]) == data.subrange(
            y * row_bytes,
            (y + 1) * row_bytes,
        ));
        sample_laws::law_packets_unpacked(rows[i], bound);
        assert(data.take((n - 1) * row_bytes) + data.subrange(y * row_bytes, (y + 1) * row_bytes)
            =~= data.take(n * row_bytes));
    } else {
        assert(n * row_bytes == 0) by (nonlinear_arith)
            requires
                n == 0,
        ;
        assert(data.take(0) =~= Seq::<u8>::empty());
    }
}

proof fn lemma_rows_passed(
    r: ReaderState,
    start: int,
    rows: Seq<Seq<Packet>>,
    lengths: Seq<usize>,
    first: int,
    n: int,
)
    requires
        0 <= first,
        0 <= n,
        first + n <= rows.len(),
        lengths.len() == rows.len(),
        r.buffer.len() <= usize::MAX,
        forall|i: int|
            0 <= i < rows.len() ==> {
                let code = sample_laws::row_code(#[trigger] rows[i]);
                &&& lengths[i] == code.len()
                &&& start + rows_end(rows, i) + code.len() <= r.buffer.len()
            },
        r.offset == start + rows_end(rows, first),
    ensures
        rle::past_rows(r, lengths, first, n) == (ReaderState {
            offset: start + rows_end(rows, first + n),
            ..r
        }),
    decreases n,
{
    if n > 0 {
        lemma_rows_passed(r, start, rows, lengths, first, n - 1);
        let i = first + n - 1;
        assert(lengths[i] == sample_laws::row_code(rows[i]).len());
    }
}

/// The byte planes of the samples of several channels.
pub open spec fn byte_planes_of(data: Seq<Seq<u8>>, depth: u32, count: int) -> Seq<Seq<u8>> {
    Seq::new(data.len(), |c: int| sample_laws::sample_plane(data[c], depth, count))
}

proof fn lemma_channels_read(
    r: ReaderState,
    start: int,
    rows: Seq<Seq<Packet>>,
    lengths: Seq<usize>,
    before: Seq<u8>,
    places: Seq<usize>,
    n: int,
    width: int,
    height: int,
    depth: u32,
    step: int,
    data: Seq<Seq<u8>>,
)
    requires
        depth == 8 || depth == 16 || depth == 32,
        0 <= width,
        0 <= height,
        width * sample_laws::sample_size(depth) <= usize::MAX,
        r.buffer.len() <= usize::MAX,
        0 <= n <= places.len(),
        data.len() == places.len(),
        rows.len() == places.len() * height,
        lengths.len() == rows.len(),
        0 <= start,
        forall|i: int|
            0 <= i < rows.len() ==> {
                let code = sample_laws::row_code(#[trigger] rows[i]);
                let from = start + rows_end(rows, i);
                &&& sample_laws::row_wf(rows[i])
                &&& lengths[i] == code.len()
                &&& from + code.len() <= r.buffer.len()
                &&& forall|k: int| 0 <= k < code.len() ==> r.buffer[from + k]
                    == #[trigger] code[k]
            },
        r.offset == start,
        step >= 1,
        places_distinct(places, places.len() as int),
        forall|c: int| 0 <= c < places.len() ==> #[trigger] places[c] < step ==> c < step,
        forall|c: int|
            0 <= c < places.len() ==> rows_stand_for(
                rows,
                c * height,
                height,
                width * sample_laws::sample_size(depth),
                #[trigger] data[c],
            ),
    ensures
        rle::get_channels(
            r,
            Some(before),
            lengths,
            places,
            n,
            width,
            height,
            depth,
            step,
        ) matches Ok((Some(after), r1)) && spread(
            before,
            after,
            places,
            step,
            byte_planes_of(data, depth, width * height),
            n,
        ) && r1 == (ReaderState { offset: start + rows_end(rows, n * height), ..r }),
    decreases n,
{
    if n > 0 {
        lemma_channels_read(
            r,
            start,
            rows,
            lengths,
            before,
            places,
            n - 1,
            width,
            height,
            depth,
            step,
            data,
        );
        let c = n - 1;
        let size = sample_laws::sample_size(depth);
        let row_bytes = width * size;
        let planes = byte_planes_of(data, depth, width * height);
        let (mid, r1) = rle::get_channels(
            r,
            Some(before),
            lengths,
            places,
            n - 1,
            width,
            height,
            depth,
            step,
        )->Ok_0;
        let mid = mid->Some_0;
        assert(0 <= c * height && c * height + height == n * height && n * height <= places.len()
            * height) by (nonlinear_arith)
            requires
                0 <= c,
                n == c + 1,
                n <= places.len(),
                0 <= height,
        ;
        assert(0 <= row_bytes) by (nonlinear_arith)
            requires
                0 <= width,
                0 <= size,
                row_bytes == width * size,
        ;
        assert(codec::bytes_per_sample(depth) == size);
        assert(rle::row_size(width, depth) == row_bytes);
        if places[c] < step {
            assert(rows_stand_for(rows, c * height, height, row_bytes, data[c]));
            lemma_rows_read(
                r1,
                start,
                rows,
                lengths,
                c * height,
                height,
                height,
                row_bytes,
                row_bytes,
                data[c],
            );
            assert(data[c].take(height * row_bytes) =~= data[c]);
            lemma_bytes_of_channel(data[c], depth, width, height);
            let after = pixels::stored(mid, places[c] as int, step, planes[c]);
            sample_laws::lemma_filled(mid, places[c] as int, step, planes[c]);
            lemma_spread_more(before, mid, after, places, step, planes, n);
        } else {
            lemma_rows_passed(r1, start, rows, lengths, c * height, height);
            assert forall|i: int|
                0 <= i < before.len() && (forall|d: int|
                    0 <= d < n ==> #[trigger] places[d] >= step || i % step != places[d] || i / step
                        >= planes[d].len()) implies #[trigger] mid[i] == before[i] by {}
        }
    } else {
        assert(n * height == 0) by (nonlinear_arith)
            requires
                n == 0,
        ;
    }
}

proof fn lemma_bytes_of_channel(data: Seq<u8>, depth: u32, width: int, height: int)
    requires
        depth == 8 || depth == 16 || depth == 32,
        data.len() == height * (width * sample_laws::sample_size(depth)),
        0 <= width,
        0 <= height,
    ensures
        codec::byte_channel(data, depth) == sample_laws::sample_plane(data, depth, width * height),
{
    let size = sample_laws::sample_size(depth);
    assert(height * (width * size) == (width * height) * size) by (nonlinear_arith);
    assert(0 <= width * height) by (nonlinear_arith)
        requires
            0 <= width,
            0 <= height,
    ;
    let found = codec::byte_channel(data, depth);
    let all = sample_laws::sample_plane(data, depth, width * height);
    assert(found.len() == all.len());
    assert forall|k: int| 0 <= k < all.len() implies found[k] == #[trigger] all[k] by {
        number_laws::lemma_at(data, 4 * k);
        number_laws::lemma_at(data, 2 * k);
    }
    assert(found =~= all);
}

/// Run-length coded channels give each pixel its samples: the rows are those that the
/// table says the lengths of, every row stands for the samples of its parts, and the
/// channels come one after the other. Only the memory for the table can be missing.
pub proof fn law_run_length_channels(
    r: ReaderState,
    rows: Seq<Seq<Packet>>,
    before: Seq<u8>,
    places: Seq<usize>,
    width: int,
    height: int,
    depth: u32,
    step: int,
    large: bool,
    data: Seq<Seq<u8>>,
)
    requires
        depth == 8 || depth == 16 || depth == 32,
        0 <= width,
        0 <= height,
        width * sample_laws::sample_size(depth) <= usize::MAX,
        r.buffer.len() <= usize::MAX,
        data.len() == places.len(),
        rows.len() == places.len() * height,
        packed_at(r.buffer, r.offset, rows, large),
        step >= 1,
        places_distinct(places, places.len() as int),
        forall|c: int| 0 <= c < places.len() ==> #[trigger] places[c] < step ==> c < step,
        forall|c: int|
            0 <= c < places.len() ==> rows_stand_for(
                rows,
                c * height,
                height,
                width * sample_laws::sample_size(depth),
                #[trigger] data[c],
            ),
    ensures
        match rle::get_rle(r, Some(before), width, height, depth, step, places, large) {
            Ok((found, after)) => found matches Some(found) && spread(
                before,
                found,
                places,
                step,
                byte_planes_of(data, depth, width * height),
                places.len() as int,
            ) && after == (ReaderState {
                offset: r.offset + entry_bytes(large) * rows.len() + rows_end(
                    rows,
                    rows.len() as int,
                ),
                ..r
            }),
            Err(e) => e is ExceededMemoryLimit && 4 * rows.len() > budget::available(r.budget),
        },
{
    let e = entry_bytes(large);
    let start = r.offset + e * rows.len();
    let count = places.len() * height;
    assert(count * rle::entry_size(large) == e * rows.len()) by (nonlinear_arith)
        requires
            count == rows.len(),
            rle::entry_size(large) == e,
    ;
    let lengths = Seq::new(
        count as nat,
        |i: int|
            if large {
                bytes::u32_at(r.buffer, r.offset + 4 * i) as usize
            } else {
                bytes::u16_at(r.buffer, r.offset + 2 * i) as usize
            },
    );
    assert forall|i: int| 0 <= i < rows.len() implies #[trigger] lengths[i]
        == sample_laws::row_code(rows[i]).len() by {
        let code = sample_laws::row_code(rows[i]);
        number_laws::lemma_at(r.buffer, r.offset + 4 * i);
        number_laws::lemma_at(r.buffer, r.offset + 2 * i);
    }
    assert forall|i: int| 0 <= i < rows.len() implies {
        let code = sample_laws::row_code(#[trigger] rows[i]);
        let from = start + rows_end(rows, i);
        &&& sample_laws::row_wf(rows[i])
        &&& lengths[i] == code.len()
        &&& from + code.len() <= r.buffer.len()
        &&& forall|k: int| 0 <= k < code.len() ==> r.buffer[from + k] == #[trigger] code[k]
    } by {
        assert(lengths[i] == sample_laws::row_code(rows[i]).len());
    }
    lemma_channels_read(
        r.at(start),
        start,
        rows,
        lengths,
        before,
        places,
        places.len() as int,
        width,
        height,
        depth,
        step,
        data,
    );
}

/// `code` is how a channel of `width` times `height` samples is stored.
pub open spec fn stores(
    code: Seq<u8>,
    compression: Compression,
    data: Seq<u8>,
    depth: u32,
    width: int,
    height: int,
    large: bool,
) -> bool {
    &&& data.len() == sample_laws::sample_size(depth) * (width * height)
    &&& code.len() > 0
    &&& code.len() <= usize::MAX
    &&& match compression {
        Compression::RawData => code == data,
        Compression::RleCompressed => exists|rows: Seq<Seq<Packet>>| #[trigger]
            packed_at(code, 0, rows, large) && rows.len() == height && rows_stand_for(
                rows,
                0,
                height,
                width * sample_laws::sample_size(depth),
                data,
            ),
        Compression::ZipWithoutPrediction => sample_laws::inflates_to(
            code,
            sample_laws::zip_form(data, depth, width, false),
        ),
        Compression::ZipWithPrediction => sample_laws::inflates_to(
            code,
            sample_laws::zip_form(data, depth, width, true),
        ),
    }
}

/// A stored channel gives its samples, reduced to bytes, to its places in pixels, in
/// whatever way and with whatever depth it is stored. Only memory can be missing.
pub proof fn law_channel_decoded(
    r: ReaderState,
    code: Seq<u8>,
    compression: Compression,
    data: Seq<u8>,
    depth: u32,
    width: int,
    height: int,
    large: bool,
    before: Seq<u8>,
    offset: usize,
    step: int,
)
    requires
        depth == 8 || depth == 16 || depth == 32,
        0 < width,
        0 <= height,
        width * sample_laws::sample_size(depth) <= usize::MAX,
        stores(code, compression, data, depth, width, height, large),
        r.buffer == code,
        r.offset == 0,
        offset < step,
    ensures
        match codec::get_data(
            r,
            code.len() as int,
            Some(before),
            compression,
            width,
            height,
            depth,
            offset as int,
            large,
            step,
        ) {
            Ok((found, _)) => found matches Some(found) && sample_laws::filled(
                before,
                found,
                offset as int,
                step,
                sample_laws::sample_plane(data, depth, width * height),
            ),
            Err(e) => e is ExceededMemoryLimit && budget::available(r.budget) < 4 * height
                + sample_laws::sample_size(depth) * (width * height),
        },
{
    match compression {
        Compression::RawData => {
            lemma_raw_decoded(
                r, code, compression, data, depth, width, height, large, before, offset, step,
            );
        },
        Compression::RleCompressed => {
            lemma_packed_decoded(
                r, code, compression, data, depth, width, height, large, before, offset, step,
            );
        },
        _ => {
            lemma_zip_decoded(
                r, code, compression, data, depth, width, height, large, before, offset, step,
            );
        },
    }
}

proof fn lemma_sizes(width: int, height: int, size: int)
    requires
        0 < width,
        0 <= height,
        0 < size,
    ensures
        size * (width * height) == height * (width * size),
        0 <= width * height,
        0 <= size * (width * height),
{
    assert(size * (width * height) == height * (width * size)) by (nonlinear_arith);
    assert(0 <= width * height) by (nonlinear_arith)
        requires
            0 < width,
            0 <= height,
    ;
    assert(0 <= size * (width * height)) by (nonlinear_arith)
        requires
            0 <= width * height,
            0 < size,
    ;
}

proof fn lemma_raw_decoded(
    r: ReaderState,
    code: Seq<u8>,
    compression: Compression,
    data: Seq<u8>,
    depth: u32,
    width: int,
    height: int,
    large: bool,
    before: Seq<u8>,
    offset: usize,
    step: int,
)
    requires
        depth == 8 || depth == 16 || depth == 32,
        0 < width,
        0 <= height,
        width * sample_laws::sample_size(depth) <= usize::MAX,
        stores(code, compression, data, depth, width, height, large),
        r.buffer == code,
        r.offset == 0,
        offset < step,
        compression == Compression::RawData,
    ensures
        match codec::get_data(
            r,
            code.len() as int,
            Some(before),
            compression,
            width,
            height,
            depth,
            offset as int,
            large,
            step,
        ) {
            Ok((found, _)) => found matches Some(found) && sample_laws::filled(
                before,
                found,
                offset as int,
                step,
                sample_laws::sample_plane(data, depth, width * height),
            ),
            Err(e) => e is ExceededMemoryLimit && budget::available(r.budget) < 4 * height
                + sample_laws::sample_size(depth) * (width * height),
        },
{
    let plane = sample_laws::sample_plane(data, depth, width * height);
    lemma_sizes(width, height, sample_laws::sample_size(depth));
    assert(r.buffer.subrange(0, code.len() as int) =~= code);
    lemma_bytes_of_channel(data, depth, width, height);
    sample_laws::lemma_filled(before, offset as int, step, plane);
}

proof fn lemma_packed_decoded(
    r: ReaderState,
    code: Seq<u8>,
    compression: Compression,
    data: Seq<u8>,
    depth: u32,
    width: int,
    height: int,
    large: bool,
    before: Seq<u8>,
    offset: usize,
    step: int,
)
    requires
        depth == 8 || depth == 16 || depth == 32,
        0 < width,
        0 <= height,
        width * sample_laws::sample_size(depth) <= usize::MAX,
        stores(code, compression, data, depth, width, height, large),
        r.buffer == code,
        r.offset == 0,
        offset < step,
        compression == Compression::RleCompressed,
    ensures
        match codec::get_data(
            r,
            code.len() as int,
            Some(before),
            compression,
            width,
            height,
            depth,
            offset as int,
            large,
            step,
        ) {
            Ok((found, _)) => found matches Some(found) && sample_laws::filled(
                before,
                found,
                offset as int,
                step,
                sample_laws::sample_plane(data, depth, width * height),
            ),
            Err(e) => e is ExceededMemoryLimit && budget::available(r.budget) < 4 * height
                + sample_laws::sample_size(depth) * (width * height),
        },
{
    let plane = sample_laws::sample_plane(data, depth, width * height);
    let size = sample_laws::sample_size(depth);
    lemma_sizes(width, height, size);
    let rows = choose|rows: Seq<Seq<Packet>>| #[trigger]
        packed_at(code, 0, rows, large) && rows.len() == height && rows_stand_for(
            rows,
            0,
            height,
            width * size,
            data,
        );
    let places = seq![offset];
    let all = seq![data];
    assert forall|c: int| 0 <= c < places.len() implies rows_stand_for(
        rows,
        c * height,
        height,
        width * size,
        #[trigger] all[c],
    ) by {
        assert(c * height == 0) by (nonlinear_arith)
            requires
                c == 0,
        ;
    }
    assert(places.len() * height == height) by (nonlinear_arith)
        requires
            places.len() == 1,
    ;
    law_run_length_channels(r, rows, before, places, width, height, depth, step, large, all);
    let planes = byte_planes_of(all, depth, width * height);
    assert(planes[0] == plane);
    match rle::get_rle(r, Some(before), width, height, depth, step, places, large) {
        Err(_) => {},
        Ok((found, _)) => {
            lemma_spread_one(before, found->Some_0, offset, step, planes);
        },
    }
}

proof fn lemma_zip_decoded(
    r: ReaderState,
    code: Seq<u8>,
    compression: Compression,
    data: Seq<u8>,
    depth: u32,
    width: int,
    height: int,
    large: bool,
    before: Seq<u8>,
    offset: usize,
    step: int,
)
    requires
        depth == 8 || depth == 16 || depth == 32,
        0 < width,
        0 <= height,
        width * sample_laws::sample_size(depth) <= usize::MAX,
        stores(code, compression, data, depth, width, height, large),
        r.buffer == code,
        r.offset == 0,
        offset < step,
        compression == Compression::ZipWithoutPrediction || compression
            == Compression::ZipWithPrediction,
    ensures
        match codec::get_data(
            r,
            code.len() as int,
            Some(before),
            compression,
            width,
            height,
            depth,
            offset as int,
            large,
            step,
        ) {
            Ok((found, _)) => found matches Some(found) && sample_laws::filled(
                before,
                found,
                offset as int,
                step,
                sample_laws::sample_plane(data, depth, width * height),
            ),
            Err(e) => e is ExceededMemoryLimit && budget::available(r.budget) < 4 * height
                + sample_laws::sample_size(depth) * (width * height),
        },
{
    let size = sample_laws::sample_size(depth);
    let prediction = compression == Compression::ZipWithPrediction;
    lemma_sizes(width, height, size);
    assert(r.buffer.subrange(0, code.len() as int) =~= code);
    sample_laws::law_zip_samples(data, depth, width, height, prediction);
    sample_laws::law_inflated_channel_stored(
        before,
        data,
        depth,
        width,
        height,
        step,
        offset as int,
        prediction,
    );
    assert(codec::samples_size(width, height, depth) == size * (width * height));
}

proof fn lemma_spread_one(
    before: Seq<u8>,
    after: Seq<u8>,
    offset: usize,
    step: int,
    planes: Seq<Seq<u8>>,
)
    requires
        offset < step,
        planes.len() == 1,
        spread(before, after, seq![offset], step, planes, 1),
    ensures
        sample_laws::filled(before, after, offset as int, step, planes[0]),
{
    let places = seq![offset];
    assert(places[0] == offset);
    assert forall|k: int|
        0 <= k < planes[0].len() && offset + step * k < before.len() implies after[offset + step
        * k] == #[trigger] planes[0][k] by {
        assert(places[0] + step * k == offset + step * k);
    }
    assert forall|i: int|
        0 <= i < before.len() && (i < offset || (i - offset) % step != 0 || (i - offset) / step
            >= planes[0].len()) implies #[trigger] after[i] == before[i] by {
        if i % step == offset {
            let k = i / step;
            vstd::arithmetic::div_mod::lemma_fundamental_div_mod(i, step);
            vstd::arithmetic::div_mod::lemma_div_pos_is_pos(i, step);
            assert(0 <= step * k) by (nonlinear_arith)
                requires
                    0 <= k,
                    0 < step,
            ;
            assert(i - offset == k * step + 0) by (nonlinear_arith)
                requires
                    i == step * k + offset,
            ;
            vstd::arithmetic::div_mod::lemma_fundamental_div_mod_converse(i - offset, step, k, 0);
        }
    }
}

} // verus!
