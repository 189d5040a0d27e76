//! Run-length coded channels: a table of row lengths, then the packed rows.

use vstd::prelude::*;

use crate::budget;
use crate::bytes;
use crate::codec;
use crate::error::{ErrorView, ReadResult};
use crate::packbits;
use crate::pixels;
use crate::pixels::DecodeTarget;
use crate::psd::{PixelData, PixelDataView};
use crate::reader;
use crate::reader::{Parsed, PsdReader, ReaderState};
use crate::writer;

verus! {

broadcast use crate::bytes::group_bytes;

/// An entry of the table of row lengths.
pub open spec fn length_entry(length: int, large: bool) -> Seq<u8> {
    if large {
        bytes::u32_bytes(writer::low32(length))
    } else {
        bytes::u16_bytes((length % 0x1_0000) as u16)
    }
}

/// The packed rows of one channel.
pub open spec fn channel_rows(p: PixelDataView, channel: int) -> Seq<Seq<u8>> {
    Seq::new(p.height as nat, |y: int| packbits::packed(pixels::plane_row(p, channel, y)))
}

/// The packed rows of several channels, one channel after the other.
pub open spec fn all_rows(p: PixelDataView, channels: Seq<usize>) -> Seq<Seq<u8>>
    decreases channels.len(),
{
    if channels.len() == 0 {
        Seq::empty()
    } else {
        all_rows(p, channels.drop_last()) + channel_rows(p, channels.last() as int)
    }
}

/// The table of row lengths.
pub open spec fn length_table(rows: Seq<Seq<u8>>, large: bool) -> Seq<Seq<u8>> {
    Seq::new(rows.len(), |i: int| length_entry(rows[i].len() as int, large))
}

/// The code of several channels: the table of row lengths and the packed rows.
pub open spec fn rle_bytes(p: PixelDataView, channels: Seq<usize>, large: bool) -> Seq<u8> {
    let rows = all_rows(p, channels);
    bytes::concat(length_table(rows, large)) + bytes::concat(rows)
}

/// Every channel is one of the four of a pixel.
pub open spec fn valid_channels(channels: Seq<usize>) -> bool {
    forall|i: int| 0 <= i < channels.len() ==> #[trigger] channels[i] < 4
}

fn push_length(table: &mut Vec<u8>, length: usize, large: bool)
    ensures
        final(table)@ == old(table)@ + length_entry(length as int, large),
{
    reveal(bytes::u16_bytes);
    reveal(bytes::u32_bytes);
    if large {
        let v: u32 = writer::low_32_bits(length);
        table.push((v / 0x100_0000) as u8);
        table.push(((v / 0x1_0000) % 256) as u8);
        table.push(((v / 0x100) % 256) as u8);
        table.push((v % 256) as u8);
    } else {
        let v: u16 = (length % 0x1_0000) as u16;
        table.push((v / 256) as u8);
        table.push((v % 256) as u8);
    }
    assert(table@ =~= old(table)@ + length_entry(length as int, large));
}

fn extract_row(pixels: &PixelData, channel: usize, y: usize) -> (row: Vec<u8>)
    requires
        pixels.deep_view().wf(),
        channel < 4,
        y < pixels.height,
    ensures
        row@ == pixels::plane_row(pixels.deep_view(), channel as int, y as int),
{
    let width: usize = pixels.width as usize;
    let len: usize = pixels.data.len();
    assert(y * width + width <= pixels.width * pixels.height && 0 <= y * width) by (nonlinear_arith)
        requires
            y + 1 <= pixels.height,
            width == pixels.width,
    ;
    let start: usize = y * width;
    let mut row: Vec<u8> = Vec::new();
    let mut x: usize = 0;
    while x < width
        invariant
            x <= width,
            start == y * width,
            width == pixels.width,
            (start + width) * 4 <= len,
            len == pixels.data@.len(),
            channel < 4,
            row@ == pixels::plane_row(pixels.deep_view(), channel as int, y as int).take(x as int),
        decreases width - x,
    {
        row.push(pixels.data[4 * (start + x) + channel]);
        x += 1;
        assert(row@ =~= pixels::plane_row(pixels.deep_view(), channel as int, y as int).take(
            x as int,
        ));
    }
    assert(row@ =~= pixels::plane_row(pixels.deep_view(), channel as int, y as int));
    row
}

/// The code of several channels of a bitmap.
pub(crate) fn rle_encode(pixels: &PixelData, channels: &[usize], large: bool) -> (code: Vec<u8>)
    requires
        pixels.deep_view().wf(),
        valid_channels(channels@),
    ensures
        code@ == rle_bytes(pixels.deep_view(), channels@, large),
{
    let ghost p = pixels.deep_view();
    let mut table: Vec<u8> = Vec::new();
    let mut body: Vec<u8> = Vec::new();
    let mut c: usize = 0;
    let height: usize = pixels.height as usize;
    let ghost mut rows = Seq::<Seq<u8>>::empty();
    assert(channels@.take(0) =~= Seq::<usize>::empty());
    while c < channels.len()
        invariant
            c <= channels@.len(),
            p == pixels.deep_view(),
            p.wf(),
            height == p.height,
            valid_channels(channels@),
            rows == all_rows(p, channels@.take(c as int)),
            table@ == bytes::concat(length_table(rows, large)),
            body@ == bytes::concat(rows),
        decreases channels@.len() - c,
    {
        let channel: usize = channels[c];
        let ghost base = rows;
        let ghost mine = channel_rows(p, channel as int);
        let mut y: usize = 0;
        assert(base + mine.take(0) =~= base);
        while y < height
            invariant
                y <= height,
                p == pixels.deep_view(),
                p.wf(),
                height == p.height,
                channel < 4,
                mine == channel_rows(p, channel as int),
                rows == base + mine.take(y as int),
                table@ == bytes::concat(length_table(rows, large)),
                body@ == bytes::concat(rows),
            decreases height - y,
        {
            let row: Vec<u8> = extract_row(pixels, channel, y);
            let before: usize = body.len();
            packbits::pack_row(&row, &mut body);
            let length: usize = body.len() - before;
            push_length(&mut table, length, large);
            proof {
                let next = packbits::packed(row@);
                assert(mine[y as int] == next);
                assert(mine.take(y + 1) =~= mine.take(y as int).push(next));
                assert(base + mine.take(y + 1) =~= rows.push(next));
                bytes::lemma_concat_push(rows, next);
                assert(length_table(rows.push(next), large) =~= length_table(rows, large).push(
                    length_entry(length as int, large),
                ));
                bytes::lemma_concat_push(
                    length_table(rows, large),
                    length_entry(length as int, large),
                );
                rows = rows.push(next);
            }
            y += 1;
        }
        proof {
            assert(mine.take(y as int) =~= mine);
            assert(channels@.take(c + 1).drop_last() =~= channels@.take(c as int));
        }
        c += 1;
    }
    assert(channels@.take(c as int) =~= channels@);
    table.append(&mut body);
    table
}

/// How much room the code of some channels never exceeds: an entry of the table
/// and two bytes per sample for every row.
pub open spec fn scratch_size(width: int, height: int, channels: int, large: bool) -> int {
    channels * (height * ((if large {
        4int
    } else {
        2int
    }) + 2 * width))
}

/// How much room [`write_data_rle`] needs for the code of some channels; as much
/// as a machine word can say where that is less.
pub fn rle_scratch_size(width: u32, height: u32, channels: usize, large: bool) -> (size: usize)
    ensures
        size == bytes::clamp_offset(
            scratch_size(width as int, height as int, channels as int, large),
        ),
{
    let row: u64 = (if large {
        4u64
    } else {
        2u64
    }) + 2 * width as u64;
    assert(height as int * row as int <= 0xFFFF_FFFF * 0x2_0000_0004) by (nonlinear_arith)
        requires
            height <= 0xFFFF_FFFFu32,
            0 <= row <= 0x2_0000_0003u64,
    ;
    assert(0 <= height as int * row as int) by (nonlinear_arith);
    let channel: u128 = height as u128 * row as u128;
    let total: Option<u128> = channel.checked_mul(channels as u128);
    assert(channels * channel == channel * channels) by (nonlinear_arith);
    match total {
        Some(size) => if size > usize::MAX as u128 {
            usize::MAX
        } else {
            size as usize
        },
        None => usize::MAX,
    }
}

/// Packs channels of a bitmap into `buffer` and returns a copy of what is
/// packed; what does not fit in the buffer is cut off. An empty bitmap has no code.
pub fn write_data_rle(
    buffer: &mut Vec<u8>,
    data_pixels: &PixelData,
    offsets: &[usize],
    large: bool,
) -> (packed: Option<Vec<u8>>)
    requires
        data_pixels.deep_view().wf(),
        valid_channels(offsets@),
    ensures
        match packed {
            None => (data_pixels.width == 0 || data_pixels.height == 0) && final(buffer)@ == old(
                buffer,
            )@,
            Some(code) => data_pixels.width != 0 && data_pixels.height != 0 && code@ == rle_prefix(
                data_pixels.deep_view(),
                offsets@,
                large,
                old(buffer)@.len() as int,
            ) && final(buffer)@ == code@ + old(buffer)@.skip(code@.len() as int) && rle_bytes(
                data_pixels.deep_view(),
                offsets@,
                large,
            ).len() <= usize::MAX,
        },
        final(buffer)@.len() == old(buffer)@.len(),
{
    if data_pixels.width == 0 || data_pixels.height == 0 {
        return None;
    }
    let mut code: Vec<u8> = rle_encode(data_pixels, offsets, large);
    let size: usize = code.len();
    if size > buffer.len() {
        code.truncate(buffer.len());
    }
    let ghost full = rle_bytes(data_pixels.deep_view(), offsets@, large);
    assert(code@ =~= rle_prefix(
        data_pixels.deep_view(),
        offsets@,
        large,
        old(buffer)@.len() as int,
    ));
    let mut i: usize = 0;
    assert(buffer@ =~= code@.take(0) + old(buffer)@.skip(0));
    while i < code.len()
        invariant
            i <= code@.len() <= buffer@.len(),
            buffer@.len() == old(buffer)@.len(),
            buffer@ == code@.take(i as int) + old(buffer)@.skip(i as int),
        decreases code@.len() - i,
    {
        buffer.set(i, code[i]);
        i += 1;
        assert(buffer@ =~= code@.take(i as int) + old(buffer)@.skip(i as int));
    }
    assert(code@.take(i as int) =~= code@);
    Some(code)
}

/// As much of the code as fits in `room` bytes.
pub open spec fn rle_prefix(
    p: PixelDataView,
    channels: Seq<usize>,
    large: bool,
    room: int,
) -> Seq<u8> {
    let full = rle_bytes(p, channels, large);
    if full.len() <= room {
        full
    } else {
        full.take(room)
    }
}

/// The code never takes more than its scratch size.
pub proof fn lemma_rle_fits(p: PixelDataView, channels: Seq<usize>, large: bool)
    ensures
        rle_bytes(p, channels, large).len() <= scratch_size(
            p.width as int,
            p.height as int,
            channels.len() as int,
            large,
        ),
    decreases channels.len(),
{
    let rows = all_rows(p, channels);
    let width = p.width as int;
    lemma_all_rows_len(p, channels);
    lemma_concat_bounded(rows, 2 * width);
    lemma_concat_bounded(
        length_table(rows, large),
        if large {
            4
        } else {
            2
        },
    );
    let n = rows.len() as int;
    let e: int = if large {
        4
    } else {
        2
    };
    assert(n * e + n * (2 * width) == channels.len() * (p.height * (e + 2 * width)))
        by (nonlinear_arith)
        requires
            n == channels.len() * p.height,
    ;
}

proof fn lemma_all_rows_len(p: PixelDataView, channels: Seq<usize>)
    ensures
        all_rows(p, channels).len() == channels.len() * p.height,
        forall|i: int|
            0 <= i < all_rows(p, channels).len() ==> (#[trigger] all_rows(p, channels)[i]).len()
                <= 2 * p.width,
    decreases channels.len(),
{
    if channels.len() > 0 {
        lemma_all_rows_len(p, channels.drop_last());
        let last = channel_rows(p, channels.last() as int);
        assert forall|y: int| 0 <= y < last.len() implies (#[trigger] last[y]).len() <= 2
            * p.width by {
            packbits::lemma_packed_length(pixels::plane_row(p, channels.last() as int, y));
        }
        assert((channels.len() - 1) * p.height + p.height == channels.len() * p.height)
            by (nonlinear_arith);
    } else {
        assert(0 * p.height == 0);
    }
}

proof fn lemma_concat_bounded(pieces: Seq<Seq<u8>>, bound: int)
    requires
        forall|i: int| 0 <= i < pieces.len() ==> (#[trigger] pieces[i]).len() <= bound,
    ensures
        bytes::concat(pieces).len() <= pieces.len() * bound,
    decreases pieces.len(),
{
    if pieces.len() > 0 {
        let shorter = pieces.drop_last();
        assert forall|i: int| 0 <= i < shorter.len() implies (#[trigger] shorter[i]).len()
            <= bound by {
            assert(shorter[i] == pieces[i]);
        }
        lemma_concat_bounded(shorter, bound);
        assert((pieces.len() - 1) * bound + bound == pieces.len() * bound) by (nonlinear_arith);
    } else {
        assert(0 * bound == 0);
    }
}

/// The bytes an entry of the table of row lengths takes.
pub open spec fn entry_size(large: bool) -> int {
    if large {
        4
    } else {
        2
    }
}

/// A table of `count` row lengths.
pub open spec fn get_row_lengths(r: ReaderState, count: int, large: bool) -> Parsed<Seq<usize>> {
    if count == 0 || r.has(count * entry_size(large)) {
        Ok(
            (
                Seq::new(
                    count as nat,
                    |i: int|
                        if large {
                            bytes::u32_at(r.buffer, r.offset + 4 * i) as usize
                        } else {
                            bytes::u16_at(r.buffer, r.offset + 2 * i) as usize
                        },
                ),
                r.at(r.offset + count * entry_size(large)),
            ),
        )
    } else {
        Err(ErrorView::UnexpectedEndOfBuffer)
    }
}

fn read_row_lengths(reader: &mut PsdReader, count: usize, large: bool) -> (result: ReadResult<
    Vec<usize>,
>)
    ensures
        match get_row_lengths(old(reader)@, count as int, large) {
            Ok((lengths, state)) => result matches Ok(v) && v@ == lengths && final(reader)@ == state,
            Err(e) => result matches Err(err) && err@ == e && final(reader)@.same_source(
                old(reader)@,
            ),
        },
{
    let ghost start = reader@;
    let mut lengths: Vec<usize> = Vec::new();
    let mut i: usize = 0;
    while i < count
        invariant
            i <= count,
            start == old(reader)@,
            i > 0 ==> start.has(i * entry_size(large)),
            reader@ == start.at(start.offset + i * entry_size(large)),
            lengths@ == Seq::new(
                i as nat,
                |k: int|
                    if large {
                        bytes::u32_at(start.buffer, start.offset + 4 * k) as usize
                    } else {
                        bytes::u16_at(start.buffer, start.offset + 2 * k) as usize
                    },
            ),
        decreases count - i,
    {
        let length: usize = if large {
            reader::read_uint32(reader)? as usize
        } else {
            reader::read_uint16(reader)? as usize
        };
        lengths.push(length);
        i += 1;
        assert(lengths@ =~= Seq::new(
            i as nat,
            |k: int|
                if large {
                    bytes::u32_at(start.buffer, start.offset + 4 * k) as usize
                } else {
                    bytes::u16_at(start.buffer, start.offset + 2 * k) as usize
                },
        ));
    }
    Ok(lengths)
}

/// The samples of `n` packed rows whose lengths start at the entry `first`.
pub open spec fn get_rows(
    r: ReaderState,
    lengths: Seq<usize>,
    first: int,
    n: int,
    width: int,
) -> Parsed<Seq<u8>>
    decreases n,
{
    if n <= 0 {
        Ok((Seq::empty(), r))
    } else {
        match get_rows(r, lengths, first, n - 1, width) {
            Err(e) => Err(e),
            Ok((samples, r1)) => match reader::get_bytes(r1, lengths[first + n - 1] as int) {
                Err(e) => Err(e),
                Ok((row, r2)) => Ok((samples + packbits::unpacked(row, width), r2)),
            },
        }
    }
}

/// The reader past `n` rows whose lengths start at the entry `first`.
pub open spec fn past_rows(r: ReaderState, lengths: Seq<usize>, first: int, n: int) -> ReaderState
    decreases n,
{
    if n <= 0 {
        r
    } else {
        past_rows(r, lengths, first, n - 1).skipped(lengths[first + n - 1] as int)
    }
}

/// An error of fewer rows is an error of more.
proof fn lemma_rows_error(r: ReaderState, lengths: Seq<usize>, first: int, n: int, m: int, width: int)
    requires
        0 <= n <= m,
        get_rows(r, lengths, first, n, width) is Err,
    ensures
        get_rows(r, lengths, first, m, width) == get_rows(r, lengths, first, n, width),
    decreases m,
{
    if n < m {
        lemma_rows_error(r, lengths, first, n, m - 1, width);
    }
}

fn read_rows(
    reader: &mut PsdReader,
    lengths: &Vec<usize>,
    first: usize,
    n: usize,
    width: usize,
) -> (result: ReadResult<Vec<u8>>)
    requires
        first + n <= lengths@.len(),
    ensures
        reader::reads(
            result,
            old(reader)@,
            final(reader)@,
            get_rows(old(reader)@, lengths@, first as int, n as int, width as int),
        ),
{
    let ghost start = reader@;
    let mut samples: Vec<u8> = Vec::new();
    let mut y: usize = 0;
    let total: usize = lengths.len();
    while y < n
        invariant
            y <= n,
            first + n <= lengths@.len() <= usize::MAX,
            start == old(reader)@,
            reader@.same_source(start),
            get_rows(start, lengths@, first as int, y as int, width as int) == Ok::<
                (Seq<u8>, ReaderState),
                ErrorView,
            >((samples@, reader@)),
        decreases n - y,
    {
        let length: usize = lengths[first + y];
        let ghost here = reader@;
        proof {
            if reader::get_bytes(here, length as int) is Err {
                assert(get_rows(start, lengths@, first as int, y + 1, width as int) is Err);
                lemma_rows_error(start, lengths@, first as int, y + 1, n as int, width as int);
            }
        }
        let row: Vec<u8> = reader::read_bytes(reader, length)?;
        packbits::unpack_row(&row, width, &mut samples);
        y += 1;
    }
    Ok(samples)
}

fn skip_rows(reader: &mut PsdReader, lengths: &Vec<usize>, first: usize, n: usize)
    requires
        first + n <= lengths@.len(),
    ensures
        final(reader)@ == past_rows(old(reader)@, lengths@, first as int, n as int),
{
    let mut y: usize = 0;
    let total: usize = lengths.len();
    while y < n
        invariant
            y <= n,
            first + n <= lengths@.len() <= usize::MAX,
            reader@ == past_rows(old(reader)@, lengths@, first as int, y as int),
        decreases n - y,
    {
        reader::skip_bytes(reader, lengths[first + y]);
        y += 1;
    }
}

/// How many bytes a row of samples of this depth takes at most.
pub open spec fn row_size(width: int, depth: u32) -> int {
    bytes::clamp_offset(width * codec::bytes_per_sample(depth))
}

/// Pixels of `step` samples have no place for the `c`-th channel, which goes to the
/// sample `channel`.
pub open spec fn is_extra(c: int, channel: int, step: int) -> bool {
    let places = if step < 1 {
        1
    } else {
        step
    };
    c >= places || channel >= places
}

/// `data` with the first `n` of several channels stored in it, their samples reduced to
/// bytes. A channel that the pixels of `data` have no place for is passed over.
pub open spec fn get_channels(
    r: ReaderState,
    data: Option<Seq<u8>>,
    lengths: Seq<usize>,
    channels: Seq<usize>,
    n: int,
    width: int,
    height: int,
    depth: u32,
    step: int,
) -> Parsed<Option<Seq<u8>>>
    decreases n,
{
    if n <= 0 {
        Ok((data, r))
    } else {
        match get_channels(r, data, lengths, channels, n - 1, width, height, depth, step) {
            Err(e) => Err(e),
            Ok((d, r1)) => {
                let c = n - 1;
                if d is None || is_extra(c, channels[c] as int, step) {
                    Ok((d, past_rows(r1, lengths, c * height, height)))
                } else {
                    match get_rows(r1, lengths, c * height, height, row_size(width, depth)) {
                        Err(e) => Err(e),
                        Ok((samples, r2)) => Ok(
                            (
                                Some(
                                    pixels::stored(
                                        d->Some_0,
                                        channels[c] as int,
                                        step,
                                        codec::byte_channel(samples, depth),
                                    ),
                                ),
                                r2,
                            ),
                        ),
                    }
                }
            },
        }
    }
}

/// `data` with run-length coded channels stored in it.
pub open spec fn get_rle(
    r: ReaderState,
    data: Option<Seq<u8>>,
    width: int,
    height: int,
    depth: u32,
    step: int,
    channels: Seq<usize>,
    large: bool,
) -> Parsed<Option<Seq<u8>>> {
    let count = channels.len() * height;
    match budget::charged(r.budget, 4 * count) {
        Err(e) => Err(e),
        Ok(_) => match get_row_lengths(r, count, large) {
            Err(e) => Err(e),
            Ok((lengths, r1)) => get_channels(
                r1,
                data,
                lengths,
                channels,
                channels.len() as int,
                width,
                height,
                depth,
                step,
            ),
        },
    }
}

proof fn lemma_channels_error(
    r: ReaderState,
    data: Option<Seq<u8>>,
    lengths: Seq<usize>,
    channels: Seq<usize>,
    n: int,
    m: int,
    width: int,
    height: int,
    depth: u32,
    step: int,
)
    requires
        0 <= n <= m,
        get_channels(r, data, lengths, channels, n, width, height, depth, step) is Err,
    ensures
        get_channels(r, data, lengths, channels, m, width, height, depth, step) == get_channels(
            r,
            data,
            lengths,
            channels,
            n,
            width,
            height,
            depth,
            step,
        ),
    decreases m,
{
    if n < m {
        lemma_channels_error(r, data, lengths, channels, n, m - 1, width, height, depth, step);
    }
}

/// Storing channels does not change how many bytes there are.
pub proof fn lemma_channels_len(
    r: ReaderState,
    data: Seq<u8>,
    lengths: Seq<usize>,
    channels: Seq<usize>,
    n: int,
    width: int,
    height: int,
    depth: u32,
    step: int,
)
    ensures
        get_channels(r, Some(data), lengths, channels, n, width, height, depth, step) matches Ok(
            (stored, _),
        ) ==> (stored matches Some(d) && d.len() == data.len()),
    decreases n,
{
    if n > 0 {
        lemma_channels_len(r, data, lengths, channels, n - 1, width, height, depth, step);
        match get_channels(r, Some(data), lengths, channels, n - 1, width, height, depth, step) {
            Err(e) => {},
            Ok((d, r1)) => {
                match get_rows(r1, lengths, (n - 1) * height, height, row_size(width, depth)) {
                    Err(e) => {},
                    Ok((samples, r2)) => {
                        pixels::lemma_stored_len(
                            d->Some_0,
                            channels[n - 1] as int,
                            step,
                            codec::byte_channel(samples, depth),
                        );
                    },
                }
            },
        }
    }
}

/// Where there is nothing to store channels in there is nothing afterwards.
pub proof fn lemma_channels_none(
    r: ReaderState,
    lengths: Seq<usize>,
    channels: Seq<usize>,
    n: int,
    width: int,
    height: int,
    depth: u32,
    step: int,
)
    ensures
        get_channels(r, None, lengths, channels, n, width, height, depth, step) matches Ok((stored, _))
            ==> stored is None,
    decreases n,
{
    if n > 0 {
        lemma_channels_none(r, lengths, channels, n - 1, width, height, depth, step);
    }
}

fn row_bytes(width: usize, depth: u32) -> (size: usize)
    ensures
        size == row_size(width as int, depth),
{
    let factor: usize = if depth == 16 {
        2
    } else if depth == 32 {
        4
    } else {
        1
    };
    match width.checked_mul(factor) {
        Some(size) => size,
        None => usize::MAX,
    }
}

/// Decodes run-length coded channels into `data`; without a place for them they
/// are only passed over.
pub(crate) fn decode_rle(
    reader: &mut PsdReader,
    data: &mut Vec<u8>,
    present: bool,
    width: usize,
    height: usize,
    depth: u32,
    step: usize,
    channels: &[usize],
    large: bool,
) -> (result: ReadResult<()>)
    ensures
        match get_rle(
            old(reader)@,
            if present {
                Some(old(data)@)
            } else {
                None
            },
            width as int,
            height as int,
            depth,
            step as int,
            channels@,
            large,
        ) {
            Ok((stored, state)) => result is Ok && final(reader)@ == state
                && final(reader)@.same_source(old(reader)@) && stored == (if present {
                Some(final(data)@)
            } else {
                None
            }),
            Err(e) => result matches Err(err) && err@ == e && final(reader)@.same_source(
                old(reader)@,
            ),
        },
        final(data)@.len() == old(data)@.len(),
        !present ==> final(data)@ == old(data)@,
{
    let ghost start = reader@;
    let ghost given = if present {
        Some(data@)
    } else {
        None
    };
    let n: usize = channels.len();
    let entries: Option<usize> = pixels::bitmap_size(n, height, 1);
    let size: Option<usize> = pixels::bitmap_size(n, height, 4);
    assert(n * height * 1 == n * height && n * height * 4 == 4 * (n * height)) by (nonlinear_arith);
    proof {
        if size is None {
            assert(budget::charged(start.budget, 4 * (n * height)) == Err::<
                Option<usize>,
                ErrorView,
            >(budget::over_budget(start.budget, 4 * (n * height))));
        }
    }
    let rest: Option<usize> = budget::charge(reader.budget, size)?;
    let count: usize = match entries {
        Some(count) => count,
        None => 0,
    };
    let lengths: Vec<usize> = read_row_lengths(reader, count, large)?;
    let ghost r1 = reader@;
    let row: usize = row_bytes(width, depth);
    let places: usize = if step < 1 {
        1
    } else {
        step
    };
    let mut c: usize = 0;
    let mut first: usize = 0;
    while c < n
        invariant
            c <= n,
            n == channels@.len(),
            row == row_size(width as int, depth),
            places == (if step < 1 {
                1
            } else {
                step
            }),
            start == old(reader)@,
            reader@.same_source(start),
            first == c * height,
            n * height == lengths@.len(),
            given == (if present {
                Some(old(data)@)
            } else {
                None
            }),
            get_channels(
                r1,
                given,
                lengths@,
                channels@,
                c as int,
                width as int,
                height as int,
                depth,
                step as int,
            ) == Ok::<(Option<Seq<u8>>, ReaderState), ErrorView>(
                (
                    if present {
                        Some(data@)
                    } else {
                        None
                    },
                    reader@,
                ),
            ),
            get_rle(
                start,
                given,
                width as int,
                height as int,
                depth,
                step as int,
                channels@,
                large,
            ) == get_channels(
                r1,
                given,
                lengths@,
                channels@,
                n as int,
                width as int,
                height as int,
                depth,
                step as int,
            ),
            data@.len() == old(data)@.len(),
            !present ==> data@ == old(data)@,
        decreases n - c,
    {
        let channel: usize = channels[c];
        assert(first + height <= n * height && (c + 1) * height == first + height)
            by (nonlinear_arith)
            requires
                first == c * height,
                c + 1 <= n,
        ;
        let size: usize = lengths.len();
        proof {
            lemma_past_rows_source(reader@, lengths@, first as int, height as int);
            lemma_rows_source(reader@, lengths@, first as int, height as int, row as int);
        }
        if !present || c >= places || channel >= places {
            skip_rows(reader, &lengths, first, height);
        } else {
            proof {
                if get_rows(reader@, lengths@, first as int, height as int, row as int) is Err {
                    lemma_channels_error(
                        r1,
                        given,
                        lengths@,
                        channels@,
                        c + 1,
                        n as int,
                        width as int,
                        height as int,
                        depth,
                        step as int,
                    );
                }
            }
            let rows: Vec<u8> = read_rows(reader, &lengths, first, height, row)?;
            let samples: Vec<u8> = codec::bytes_to_u8_channel(&rows, depth);
            proof {
                pixels::lemma_stored_len(data@, channel as int, step as int, samples@);
            }
            pixels::store_samples(data, channel, step, &samples);
        }
        c += 1;
        first = first + height;
    }
    Ok(())
}

proof fn lemma_past_rows_source(r: ReaderState, lengths: Seq<usize>, first: int, n: int)
    ensures
        past_rows(r, lengths, first, n).same_source(r),
    decreases n,
{
    if n > 0 {
        lemma_past_rows_source(r, lengths, first, n - 1);
    }
}

/// Rows are read from the same bytes under the same settings.
pub proof fn lemma_rows_source(r: ReaderState, lengths: Seq<usize>, first: int, n: int, width: int)
    ensures
        get_rows(r, lengths, first, n, width) matches Ok((samples, after)) ==> after.same_source(r),
    decreases n,
{
    if n > 0 {
        lemma_rows_source(r, lengths, first, n - 1, width);
    }
}

/// Decodes run-length coded channels into the samples of `pixel_data`.
pub fn read_data_rle(
    reader: &mut PsdReader,
    pixel_data: Option<&mut DecodeTarget>,
    width: usize,
    height: usize,
    bit_depth: u32,
    step: usize,
    offsets: &[usize],
    large: bool,
) -> (result: ReadResult<()>)
    ensures
        match pixel_data {
            Some(target) => match get_rle(
                old(reader)@,
                Some(target.data@),
                width as int,
                height as int,
                bit_depth,
                step as int,
                offsets@,
                large,
            ) {
                Ok((stored, state)) => result is Ok && final(reader)@ == state && stored == Some(
                    final(target).data@,
                ) && final(target).width == target.width && final(target).height == target.height
                    && final(target).channels == target.channels,
                Err(e) => result matches Err(err) && err@ == e,
            },
            None => match get_rle(
                old(reader)@,
                None,
                width as int,
                height as int,
                bit_depth,
                step as int,
                offsets@,
                large,
            ) {
                Ok((stored, state)) => result is Ok && final(reader)@ == state,
                Err(e) => result matches Err(err) && err@ == e,
            },
        },
{
    match pixel_data {
        Some(target) => decode_rle(
            reader,
            &mut target.data,
            true,
            width,
            height,
            bit_depth,
            step,
            offsets,
            large,
        ),
        None => {
            let mut nothing: Vec<u8> = Vec::new();
            decode_rle(reader, &mut nothing, false, width, height, bit_depth, step, offsets, large)
        },
    }
}

/// `data` with the planes of the first `n` channels of `p` stored in it.
pub open spec fn with_planes(
    data: Seq<u8>,
    p: PixelDataView,
    channels: Seq<usize>,
    n: int,
    step: int,
) -> Seq<u8>
    decreases n,
{
    if n <= 0 {
        data
    } else {
        pixels::stored(
            with_planes(data, p, channels, n - 1, step),
            channels[n - 1] as int,
            step,
            pixels::plane(p, channels[n - 1] as int),
        )
    }
}

/// The length of every packed row fits in its entry of the table.
pub open spec fn lengths_fit(width: int, large: bool) -> bool {
    2 * width < (if large {
        0x1_0000_0000int
    } else {
        0x1_0000int
    })
}

proof fn lemma_concat_uniform(pieces: Seq<Seq<u8>>, n: int, size: int)
    requires
        0 <= n <= pieces.len(),
        forall|i: int| 0 <= i < pieces.len() ==> (#[trigger] pieces[i]).len() == size,
    ensures
        bytes::concat(pieces.take(n)).len() == n * size,
    decreases n,
{
    if n > 0 {
        lemma_concat_uniform(pieces, n - 1, size);
        bytes::lemma_concat_take(pieces, n - 1);
        assert((n - 1) * size + size == n * size) by (nonlinear_arith);
    } else {
        assert(pieces.take(0) =~= Seq::<Seq<u8>>::empty());
        assert(0 * size == 0);
    }
}

proof fn lemma_all_rows_index(p: PixelDataView, channels: Seq<usize>, c: int, y: int)
    requires
        0 <= c < channels.len(),
        0 <= y < p.height,
    ensures
        0 <= c * p.height + y < all_rows(p, channels).len(),
        all_rows(p, channels)[c * p.height + y] == packbits::packed(
            pixels::plane_row(p, channels[c] as int, y),
        ),
    decreases channels.len(),
{
    lemma_all_rows_len(p, channels);
    lemma_all_rows_len(p, channels.drop_last());
    assert(0 <= c * p.height && c * p.height + p.height <= channels.len() * p.height)
        by (nonlinear_arith)
        requires
            0 <= c,
            c + 1 <= channels.len(),
    ;
    let shorter = all_rows(p, channels.drop_last());
    let last = channel_rows(p, channels.last() as int);
    if c == channels.len() - 1 {
        assert(shorter.len() == c * p.height);
        assert(all_rows(p, channels)[c * p.height + y] == last[y]);
    } else {
        lemma_all_rows_index(p, channels.drop_last(), c, y);
        assert(all_rows(p, channels)[c * p.height + y] == shorter[c * p.height + y]);
    }
}

proof fn lemma_table_reads_back(r: ReaderState, rows: Seq<Seq<u8>>, width: int, large: bool)
    requires
        r.buffer.len() <= usize::MAX,
        bytes::holds_at(r.buffer, r.offset, bytes::concat(length_table(rows, large))),
        lengths_fit(width, large),
        forall|i: int| 0 <= i < rows.len() ==> (#[trigger] rows[i]).len() <= 2 * width,
    ensures
        get_row_lengths(r, rows.len() as int, large) == Ok::<(Seq<usize>, ReaderState), ErrorView>(
            (
                Seq::new(rows.len(), |i: int| rows[i].len() as usize),
                r.at(r.offset + bytes::concat(length_table(rows, large)).len()),
            ),
        ),
{
    let table = length_table(rows, large);
    bytes::lemma_holds_at_room(r.buffer, r.offset, bytes::concat(table));
    let size = entry_size(large);
    let n = rows.len() as int;
    assert forall|i: int| 0 <= i < table.len() implies (#[trigger] table[i]).len() == size by {}
    lemma_concat_uniform(table, n, size);
    assert(table.take(n) =~= table);
    let expected = Seq::new(rows.len(), |i: int| rows[i].len() as usize);
    let read = Seq::new(
        n as nat,
        |i: int|
            if large {
                bytes::u32_at(r.buffer, r.offset + 4 * i) as usize
            } else {
                bytes::u16_at(r.buffer, r.offset + 2 * i) as usize
            },
    );
    assert forall|i: int| 0 <= i < n implies #[trigger] read[i] == expected[i] by {
        bytes::lemma_holds_at_piece(r.buffer, r.offset, table, i);
        lemma_concat_uniform(table, i, size);
        let length = rows[i].len() as int;
        assert(table[i] == length_entry(length, large));
        assert(i * size == size * i) by (nonlinear_arith);
        if large {
            bytes::lemma_u32_at(r.buffer, r.offset + 4 * i, writer::low32(length));
        } else {
            bytes::lemma_u16_at(r.buffer, r.offset + 2 * i, (length % 0x1_0000) as u16);
        }
    }
    assert(read =~= expected);
}

proof fn lemma_plane_rows(p: PixelDataView, channel: int, y: int)
    requires
        0 <= y < p.height,
    ensures
        pixels::plane(p, channel).take((y + 1) * p.width) == pixels::plane(p, channel).take(
            y * p.width,
        ) + pixels::plane_row(p, channel, y),
{
    assert(0 <= y * p.width && (y + 1) * p.width == y * p.width + p.width && (y + 1) * p.width
        <= p.width * p.height) by (nonlinear_arith)
        requires
            0 <= y,
            y + 1 <= p.height,
    ;
    let all = pixels::plane(p, channel);
    let row = pixels::plane_row(p, channel, y);
    assert(all.take((y + 1) * p.width) =~= all.take(y * p.width) + row);
}

proof fn lemma_rows_read_back(
    r: ReaderState,
    base: int,
    p: PixelDataView,
    channels: Seq<usize>,
    lengths: Seq<usize>,
    c: int,
    n: int,
)
    requires
        r.buffer.len() <= usize::MAX,
        bytes::holds_at(r.buffer, base, bytes::concat(all_rows(p, channels))),
        lengths == Seq::new(
            all_rows(p, channels).len(),
            |i: int| all_rows(p, channels)[i].len() as usize,
        ),
        0 <= c < channels.len(),
        0 <= n <= p.height,
        r.offset == base + bytes::concat(all_rows(p, channels).take(c * p.height)).len(),
    ensures
        get_rows(r, lengths, c * p.height, n, p.width as int) == Ok::<
            (Seq<u8>, ReaderState),
            ErrorView,
        >(
            (
                pixels::plane(p, channels[c] as int).take(n * p.width),
                r.at(base + bytes::concat(all_rows(p, channels).take(c * p.height + n)).len()),
            ),
        ),
    decreases n,
{
    let rows = all_rows(p, channels);
    let first = c * p.height;
    let channel = channels[c] as int;
    if n == 0 {
        assert(0 * p.width == 0);
        assert(pixels::plane(p, channel).take(0) =~= Seq::<u8>::empty());
        assert(r.at(r.offset) == r);
    } else {
        lemma_rows_read_back(r, base, p, channels, lengths, c, n - 1);
        lemma_all_rows_index(p, channels, c, n - 1);
        let row = pixels::plane_row(p, channel, n - 1);
        let r1 = r.at(base + bytes::concat(rows.take(first + n - 1)).len());
        bytes::lemma_holds_at_piece(r.buffer, base, rows, first + n - 1);
        bytes::lemma_concat_take(rows, first + n - 1);
        packbits::law_packbits_round_trip(row, p.width as int);
        lemma_plane_rows(p, channel, n - 1);
        let code = packbits::packed(row);
        bytes::lemma_holds_at_room(r.buffer, r1.offset, code);
        assert(rows[first + n - 1] == code);
        assert(lengths[first + n - 1] == code.len());
        assert(reader::get_bytes(r1, code.len() as int) == Ok::<(Seq<u8>, ReaderState), ErrorView>(
            (code, r1.at(r1.offset + code.len())),
        ));
    }
}

proof fn lemma_channels_read_back(
    r: ReaderState,
    base: int,
    data: Seq<u8>,
    p: PixelDataView,
    channels: Seq<usize>,
    lengths: Seq<usize>,
    n: int,
    step: int,
)
    requires
        r.buffer.len() <= usize::MAX,
        bytes::holds_at(r.buffer, base, bytes::concat(all_rows(p, channels))),
        lengths == Seq::new(
            all_rows(p, channels).len(),
            |i: int| all_rows(p, channels)[i].len() as usize,
        ),
        r.offset == base,
        0 <= n <= channels.len() <= step,
        forall|i: int| 0 <= i < channels.len() ==> #[trigger] channels[i] < step,
    ensures
        get_channels(
            r,
            Some(data),
            lengths,
            channels,
            n,
            p.width as int,
            p.height as int,
            8,
            step,
        ) == Ok::<(Option<Seq<u8>>, ReaderState), ErrorView>(
            (
                Some(with_planes(data, p, channels, n, step)),
                r.at(base + bytes::concat(all_rows(p, channels).take(n * p.height)).len()),
            ),
        ),
    decreases n,
{
    let rows = all_rows(p, channels);
    if n == 0 {
        assert(0 * p.height == 0);
        assert(rows.take(0) =~= Seq::<Seq<u8>>::empty());
        assert(r.at(base) == r);
    } else {
        lemma_channels_read_back(r, base, data, p, channels, lengths, n - 1, step);
        let r1 = r.at(base + bytes::concat(rows.take((n - 1) * p.height)).len());
        lemma_rows_read_back(r1, base, p, channels, lengths, n - 1, p.height as int);
        assert(row_size(p.width as int, 8) == p.width);
        assert((n - 1) * p.height + p.height == n * p.height) by (nonlinear_arith);
        let plane = pixels::plane(p, channels[n - 1] as int);
        assert(p.height * p.width == p.width * p.height) by (nonlinear_arith);
        assert(plane.take(p.height * p.width) =~= plane);
    }
}

/// Decoding the code of some channels of a bitmap of 8-bit samples gives each channel
/// its plane back.
pub proof fn law_rle_round_trip(
    r: ReaderState,
    data: Seq<u8>,
    p: PixelDataView,
    channels: Seq<usize>,
    step: int,
    large: bool,
)
    requires
        r.buffer.len() <= usize::MAX,
        bytes::holds_at(r.buffer, r.offset, rle_bytes(p, channels, large)),
        4 * (channels.len() * p.height) <= budget::available(r.budget),
        lengths_fit(p.width as int, large),
        channels.len() <= step,
        forall|i: int| 0 <= i < channels.len() ==> #[trigger] channels[i] < step,
    ensures
        get_rle(
            r,
            Some(data),
            p.width as int,
            p.height as int,
            8,
            step,
            channels,
            large,
        ) == Ok::<(Option<Seq<u8>>, ReaderState), ErrorView>(
            (
                Some(with_planes(data, p, channels, channels.len() as int, step)),
                r.at(r.offset + rle_bytes(p, channels, large).len()),
            ),
        ),
{
    let rows = all_rows(p, channels);
    let table = bytes::concat(length_table(rows, large));
    let body = bytes::concat(rows);
    bytes::lemma_holds_at_split(r.buffer, r.offset, table, body);
    lemma_all_rows_len(p, channels);
    lemma_table_reads_back(r, rows, p.width as int, large);
    let lengths = Seq::new(rows.len(), |i: int| rows[i].len() as usize);
    let r1 = r.at(r.offset + table.len());
    lemma_channels_read_back(
        r1,
        r1.offset,
        data,
        p,
        channels,
        lengths,
        channels.len() as int,
        step,
    );
    assert(rows.take(channels.len() * p.height) =~= rows);
}

} // verus!
