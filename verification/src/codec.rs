//! Channels that are stored as they are or compressed with ZIP, and the choice
//! between the ways of storing a channel.

use vstd::prelude::*;

use crate::budget;
use crate::bytes;
use crate::error::{ErrorView, ReadResult};
use crate::pixels;
use crate::pixels::DecodeTarget;
use crate::psd::{Compression, PixelData};
use crate::reader;
use crate::reader::{Parsed, PsdReader, ReaderState};
use crate::rle;
use crate::samples;
use crate::zlib;

verus! {

broadcast use crate::bytes::group_bytes;

/// The first `n` elements, or all of them where there are fewer.
pub open spec fn capped(s: Seq<u8>, n: int) -> Seq<u8> {
    if s.len() <= n {
        s
    } else {
        s.take(n)
    }
}

/// The bytes of the samples of a channel of the given bit depth.
pub open spec fn byte_channel(buffer: Seq<u8>, bit_depth: u32) -> Seq<u8> {
    if bit_depth == 16 {
        Seq::new(buffer.len() / 2, |i: int| buffer[2 * i])
    } else if bit_depth == 32 {
        Seq::new(
            buffer.len() / 4,
            |i: int| samples::byte_of_float(bytes::u32_at(buffer, 4 * i)),
        )
    } else {
        buffer
    }
}

/// A sample of this depth takes so many bytes.
pub open spec fn bytes_per_sample(bit_depth: u32) -> int {
    if bit_depth == 16 {
        2
    } else if bit_depth == 32 {
        4
    } else {
        1
    }
}

/// Reduces the samples of a channel to bytes.
pub fn bytes_to_u8_channel(buffer: &[u8], bit_depth: u32) -> (channel: Vec<u8>)
    ensures
        channel@ == byte_channel(buffer@, bit_depth),
{
    let mut out: Vec<u8> = Vec::new();
    let len: usize = buffer.len();
    if bit_depth == 16 {
        let mut i: usize = 0;
        while i < len / 2
            invariant
                i <= len / 2,
                len == buffer@.len(),
                out@ == Seq::new(i as nat, |k: int| buffer@[2 * k]),
            decreases len / 2 - i,
        {
            out.push(buffer[2 * i]);
            i += 1;
            assert(out@ =~= Seq::new(i as nat, |k: int| buffer@[2 * k]));
        }
        assert(out@ =~= byte_channel(buffer@, bit_depth));
        out
    } else if bit_depth == 32 {
        let mut i: usize = 0;
        while i < len / 4
            invariant
                i <= len / 4,
                len == buffer@.len(),
                out@ == Seq::new(
                    i as nat,
                    |k: int| samples::byte_of_float(bytes::u32_at(buffer@, 4 * k)),
                ),
            decreases len / 4 - i,
        {
            out.push(samples::float_to_byte(bytes::u32_from(buffer, 4 * i)));
            i += 1;
            assert(out@ =~= Seq::new(
                i as nat,
                |k: int| samples::byte_of_float(bytes::u32_at(buffer@, 4 * k)),
            ));
        }
        assert(out@ =~= byte_channel(buffer@, bit_depth));
        out
    } else {
        vstd::slice::slice_to_vec(buffer)
    }
}

/// Stores as many of the samples as the target has pixels.
pub fn copy_channel_to_pixel_data(
    target: &mut DecodeTarget,
    channel: &[u8],
    offset: usize,
    step: usize,
)
    ensures
        final(target).data@ == pixels::stored(
            old(target).data@,
            offset as int,
            step as int,
            capped(channel@, old(target).width * old(target).height),
        ),
        final(target).width == old(target).width,
        final(target).height == old(target).height,
        final(target).channels == old(target).channels,
{
    let len: usize = channel.len();
    let size: usize = match pixels::bitmap_size(target.width, target.height, 1) {
        Some(size) => if size < len {
            size
        } else {
            len
        },
        None => len,
    };
    assert(channel@.subrange(0, size as int) =~= capped(channel@, target.width * target.height));
    pixels::store_samples(
        &mut target.data,
        offset,
        step,
        vstd::slice::slice_subrange(channel, 0, size),
    );
}

/// `data` with the samples of a raw channel stored in it.
pub open spec fn raw_stored(
    data: Seq<u8>,
    size: int,
    buffer: Seq<u8>,
    bit_depth: u32,
    step: int,
    offset: int,
) -> Seq<u8> {
    if offset >= step {
        data
    } else {
        pixels::stored(data, offset, step, capped(byte_channel(buffer, bit_depth), size))
    }
}

/// Stores a raw channel in the samples of `pixel_data`.
pub fn read_data_raw(
    buffer: &[u8],
    pixel_data: Option<&mut DecodeTarget>,
    bit_depth: u32,
    step: usize,
    offset: usize,
)
    ensures
        pixel_data matches Some(target) ==> {
            &&& final(target).data@ == raw_stored(
                target.data@,
                target.width * target.height,
                buffer@,
                bit_depth,
                step as int,
                offset as int,
            )
            &&& final(target).width == target.width
            &&& final(target).height == target.height
            &&& final(target).channels == target.channels
        },
{
    match pixel_data {
        None => {},
        Some(target) => {
            if offset < step {
                let channel: Vec<u8> = bytes_to_u8_channel(buffer, bit_depth);
                copy_channel_to_pixel_data(target, &channel, offset, step);
            }
        },
    }
}

/// A byte of a predicted row: the sum of the stored differences up to it.
pub open spec fn row_sum(data: Seq<u8>, width: int, i: int) -> u8
    decreases i,
{
    if i <= 0 || i % width == 0 {
        data[i]
    } else {
        ((row_sum(data, width, i - 1) + data[i]) % 256) as u8
    }
}

/// The bytes that predicted rows stand for.
pub open spec fn unpredicted(data: Seq<u8>, width: int, height: int) -> Seq<u8> {
    Seq::new(
        data.len(),
        |i: int|
            if i < width * height {
                row_sum(data, width, i)
            } else {
                data[i]
            },
    )
}

/// Turns the differences in the rows of 8-bit samples into the samples.
pub fn decode_predicted_u8(data: &mut Vec<u8>, width: usize, height: usize)
    ensures
        final(data)@ == unpredicted(old(data)@, width as int, height as int),
{
    let len: usize = data.len();
    let size: usize = match pixels::bitmap_size(width, height, 1) {
        Some(size) => if size < len {
            size
        } else {
            len
        },
        None => len,
    };
    let mut i: usize = 0;
    if width == 0 {
        assert(width * height == 0) by (nonlinear_arith)
            requires
                width == 0,
        ;
    }
    while i < size
        invariant
            i <= size <= len,
            size <= width * height,
            size > 0 ==> width > 0,
            len == old(data)@.len(),
            data@.len() == len,
            forall|j: int|
                0 <= j < len ==> #[trigger] data@[j] == (if j < i {
                    row_sum(old(data)@, width as int, j)
                } else {
                    old(data)@[j]
                }),
        decreases size - i,
    {
        if i > 0 && i % width != 0 {
            let sum: u16 = data[i - 1] as u16 + data[i] as u16;
            data.set(i, (sum % 256) as u8);
        }
        i += 1;
    }
    assert(data@ =~= unpredicted(old(data)@, width as int, height as int));
}

/// A 16-bit sample of a predicted row: the sum of the stored differences up to it.
pub open spec fn row_sum_16(data: Seq<u16>, width: int, i: int) -> u16
    decreases i,
{
    if i <= 0 || i % width == 0 {
        data[i]
    } else {
        ((row_sum_16(data, width, i - 1) + data[i]) % 0x1_0000) as u16
    }
}

/// The 16-bit samples that predicted rows stand for.
pub open spec fn unpredicted_16(data: Seq<u16>, width: int, height: int) -> Seq<u16> {
    Seq::new(
        data.len(),
        |i: int|
            if i < width * height {
                row_sum_16(data, width, i)
            } else {
                data[i]
            },
    )
}

/// Turns the differences in the rows of 16-bit samples into the samples.
pub fn decode_predicted_u16(data: &mut Vec<u16>, width: usize, height: usize)
    ensures
        final(data)@ == unpredicted_16(old(data)@, width as int, height as int),
{
    let len: usize = data.len();
    let size: usize = match pixels::bitmap_size(width, height, 1) {
        Some(size) => if size < len {
            size
        } else {
            len
        },
        None => len,
    };
    let mut i: usize = 0;
    if width == 0 {
        assert(width * height == 0) by (nonlinear_arith)
            requires
                width == 0,
        ;
    }
    while i < size
        invariant
            i <= size <= len,
            size <= width * height,
            size > 0 ==> width > 0,
            len == old(data)@.len(),
            data@.len() == len,
            forall|j: int|
                0 <= j < len ==> #[trigger] data@[j] == (if j < i {
                    row_sum_16(old(data)@, width as int, j)
                } else {
                    old(data)@[j]
                }),
        decreases size - i,
    {
        if i > 0 && i % width != 0 {
            let sum: u32 = data[i - 1] as u32 + data[i] as u32;
            data.set(i, (sum % 0x1_0000) as u16);
        }
        i += 1;
    }
    assert(data@ =~= unpredicted_16(old(data)@, width as int, height as int));
}

/// The big-endian 16-bit samples of a channel.
pub open spec fn wide_samples(data: Seq<u8>) -> Seq<u16> {
    Seq::new(data.len() / 2, |i: int| bytes::u16_at(data, 2 * i))
}

/// The upper bytes of 16-bit samples.
pub open spec fn upper_bytes(data: Seq<u16>) -> Seq<u8> {
    Seq::new(data.len(), |i: int| (data[i] / 256) as u8)
}

/// Where the lowest byte of the `k`-th 32-bit sample lies. The four bytes of the
/// samples of a row are stored in four planes, the highest bytes first.
pub open spec fn planar_end(width: int, k: int) -> int {
    4 * width * (k / width) + k % width + 3 * width
}

/// The byte of the `k`-th of the 32-bit samples.
pub open spec fn planar_sample(data: Seq<u8>, width: int, k: int) -> u8 {
    let a = planar_end(width, k) - 3 * width;
    samples::byte_of_float(
        (data[a] * 0x100_0000 + data[a + width] * 0x1_0000 + data[a + 2 * width] * 0x100 + data[a
            + 3 * width]) as u32,
    )
}

/// The bytes of the 32-bit samples from the `k`-th on, as far as the data goes.
pub open spec fn planar_samples(data: Seq<u8>, width: int, height: int, k: int) -> Seq<u8>
    decreases width * height - k,
{
    if k >= width * height || planar_end(width, k) >= data.len() {
        Seq::empty()
    } else {
        seq![planar_sample(data, width, k)] + planar_samples(data, width, height, k + 1)
    }
}

fn planar_to_bytes(data: &Vec<u8>, width: usize, height: usize) -> (out: Vec<u8>)
    ensures
        out@ == planar_samples(data@, width as int, height as int, 0),
{
    let len: usize = data.len();
    let mut out: Vec<u8> = Vec::new();
    if width == 0 || width > len {
        proof {
            let w = width as int;
            if w == 0 {
                assert(w * height == 0);
            } else {
                assert(planar_end(w, 0) >= w) by {
                    assert(0int / w == 0 && 0int % w == 0) by (nonlinear_arith)
                        requires
                            w > 0,
                    ;
                    assert(4 * w * 0 == 0);
                }
            }
        }
        return out;
    }
    let mut y: usize = 0;
    let ghost mut k: int = 0;
    let ghost w = width as int;
    let ghost all = planar_samples(data@, w, height as int, 0);
    let mut start: usize = 0;
    let mut done: bool = false;
    assert(out@ + planar_samples(data@, w, height as int, 0) =~= all);
    while y < height && !done
        invariant
            w == width,
            0 < width <= len,
            len == data@.len(),
            y <= height,
            !done ==> start == 4 * w * y,
            !done ==> k == y * w,
            !done ==> out@ + planar_samples(data@, w, height as int, k) == all,
            done ==> out@ == all,
        decreases
                height - y,
                (if done {
                    0int
                } else {
                    1int
                }),
    {
        let mut x: usize = 0;
        proof {
            assert(y * w + w <= w * height && (y + 1) * w == y * w + w) by (nonlinear_arith)
                requires
                    y + 1 <= height,
                    w > 0,
            ;
        }
        while x < width && !done
            invariant
                w == width,
                0 < width <= len,
                len == data@.len(),
                x <= width,
                y < height,
                y * w + w <= w * height,
                start == 4 * w * y,
                k == y * w + x,
                !done ==> out@ + planar_samples(data@, w, height as int, k) == all,
                done ==> out@ == all,
            decreases
                    width - x,
                    (if done {
                        0int
                    } else {
                        1int
                    }),
        {
            proof {
                assert(k / w == y && k % w == x) by {
                    vstd::arithmetic::div_mod::lemma_fundamental_div_mod_converse(
                        k,
                        w,
                        y as int,
                        x as int,
                    );
                }
                assert(planar_end(w, k) == start + x + 3 * w);
            }
            if start >= len || x >= len - start || width > (len - start - x - 1) / 3 {
                proof {
                    assert(planar_end(w, k) >= len);
                    assert(out@ + Seq::<u8>::empty() =~= out@);
                }
                done = true;
            } else {
                let a: usize = start + x;
                let bits: u32 = data[a] as u32 * 0x100_0000 + data[a + width] as u32 * 0x1_0000
                    + data[a + 2 * width] as u32 * 0x100 + data[a + 3 * width] as u32;
                let ghost before = out@;
                out.push(samples::float_to_byte(bits));
                proof {
                    assert(before + (seq![planar_sample(data@, w, k)] + planar_samples(
                        data@,
                        w,
                        height as int,
                        k + 1,
                    )) =~= out@ + planar_samples(data@, w, height as int, k + 1));
                    k = k + 1;
                }
                x += 1;
            }
        }
        if !done {
            proof {
                assert(4 * w * (y + 1) == 4 * w * y + 4 * w) by (nonlinear_arith);
            }
            if start > len - width || 4 > (usize::MAX - start) / width {
                proof {
                    if y + 1 < height {
                        assert((y + 1) * w < w * height) by (nonlinear_arith)
                            requires
                                y + 1 < height,
                                w > 0,
                        ;
                        assert(k / w == y + 1 && k % w == 0) by {
                            vstd::arithmetic::div_mod::lemma_fundamental_div_mod_converse(
                                k,
                                w,
                                y + 1,
                                0,
                            );
                        }
                        assert(planar_end(w, k) >= len) by {
                            if start > len - width {
                            } else {
                                assert(4 * w > usize::MAX - start) by (nonlinear_arith)
                                    requires
                                        4 > (usize::MAX - start) / w,
                                        w > 0,
                                ;
                            }
                        }
                    } else {
                        assert(k >= w * height) by (nonlinear_arith)
                            requires
                                k == y * w + w,
                                y + 1 >= height,
                                w > 0,
                        ;
                    }
                    assert(planar_samples(data@, w, height as int, k) =~= Seq::<u8>::empty());
                    assert(out@ + Seq::<u8>::empty() =~= out@);
                }
                done = true;
            } else {
                assert(4 * w <= usize::MAX - start) by (nonlinear_arith)
                    requires
                        4 <= (usize::MAX - start) / w,
                        w > 0,
                ;
                start = start + 4 * width;
                y += 1;
            }
        }
    }
    proof {
        if !done {
            assert(planar_samples(data@, w, height as int, k) =~= Seq::<u8>::empty()) by {
                assert(k >= w * height) by (nonlinear_arith)
                    requires
                        k == y * w,
                        y >= height,
                        w > 0,
                ;
            }
            assert(out@ + Seq::<u8>::empty() =~= out@);
        }
    }
    out
}

/// The bytes of the samples of a decompressed channel.
pub open spec fn zip_samples(
    data: Seq<u8>,
    size: int,
    width: int,
    height: int,
    bit_depth: u32,
    prediction: bool,
) -> Seq<u8> {
    if bit_depth == 8 {
        capped(
            if prediction {
                unpredicted(data, width, height)
            } else {
                data
            },
            size,
        )
    } else if bit_depth == 16 {
        capped(
            upper_bytes(
                if prediction {
                    unpredicted_16(wide_samples(data), width, height)
                } else {
                    wide_samples(data)
                },
            ),
            size,
        )
    } else if bit_depth == 32 {
        planar_samples(
            if prediction {
                unpredicted(data, width * 4, height)
            } else {
                data
            },
            width,
            height,
            0,
        )
    } else {
        Seq::empty()
    }
}

/// How many bytes the samples of a channel take.
pub open spec fn samples_size(width: int, height: int, bit_depth: u32) -> int {
    if bit_depth == 8 {
        width * height * 1
    } else if bit_depth == 16 {
        width * height * 2
    } else if bit_depth == 32 {
        width * height * 4
    } else {
        0
    }
}

/// How many bytes the samples of a channel take, where that number fits a machine
/// word.
pub fn sized_samples(width: usize, height: usize, bit_depth: u32) -> (size: Option<usize>)
    ensures
        match size {
            Some(n) => n == samples_size(width as int, height as int, bit_depth),
            None => samples_size(width as int, height as int, bit_depth) > usize::MAX,
        },
{
    if bit_depth == 8 {
        pixels::bitmap_size(width, height, 1)
    } else if bit_depth == 16 {
        pixels::bitmap_size(width, height, 2)
    } else if bit_depth == 32 {
        pixels::bitmap_size(width, height, 4)
    } else {
        Some(0)
    }
}

/// `data` with the samples of a ZIP compressed channel stored in it.
pub open spec fn zip_stored(
    data: Seq<u8>,
    size: int,
    compressed: Seq<u8>,
    width: int,
    height: int,
    bit_depth: u32,
    step: int,
    offset: int,
    prediction: bool,
) -> Seq<u8> {
    let room = samples_size(width, height, bit_depth);
    match zlib::inflated(compressed, room as nat) {
        None => data,
        Some((_, raw, _)) => if room > usize::MAX {
            data
        } else {
            inflated_stored(
            data,
            size,
            raw,
            width,
            height,
            bit_depth,
            step,
            offset,
            prediction,
            )
        },
    }
}

/// `data` with the samples of a decompressed channel stored in it.
pub open spec fn inflated_stored(
    data: Seq<u8>,
    size: int,
    raw: Seq<u8>,
    width: int,
    height: int,
    bit_depth: u32,
    step: int,
    offset: int,
    prediction: bool,
) -> Seq<u8> {
    if offset >= step {
        data
    } else {
        pixels::stored(
            data,
            offset,
            step,
            zip_samples(raw, size, width, height, bit_depth, prediction),
        )
    }
}

/// Stores a decompressed channel in the samples of `target`.
pub fn store_inflated(
    raw: Vec<u8>,
    target: &mut DecodeTarget,
    width: usize,
    height: usize,
    bit_depth: u32,
    step: usize,
    offset: usize,
    prediction: bool,
)
    requires
        width * 4 <= usize::MAX,
    ensures
        final(target).data@ == inflated_stored(
            old(target).data@,
            old(target).width * old(target).height,
            raw@,
            width as int,
            height as int,
            bit_depth,
            step as int,
            offset as int,
            prediction,
        ),
        final(target).width == old(target).width,
        final(target).height == old(target).height,
        final(target).channels == old(target).channels,
{
    let mut raw: Vec<u8> = raw;
    if offset >= step {
        return;
    }
    if bit_depth == 8 {
        if prediction {
            decode_predicted_u8(&mut raw, width, height);
        }
        copy_channel_to_pixel_data(target, &raw, offset, step);
    } else if bit_depth == 16 {
        let mut wide: Vec<u16> = Vec::new();
        let len: usize = raw.len();
        let mut i: usize = 0;
        while i < len / 2
            invariant
                i <= len / 2,
                len == raw@.len(),
                wide@ == wide_samples(raw@).take(i as int),
            decreases len / 2 - i,
        {
            wide.push(bytes::u16_from(&raw, 2 * i));
            i += 1;
            assert(wide@ =~= wide_samples(raw@).take(i as int));
        }
        assert(wide@ =~= wide_samples(raw@));
        if prediction {
            decode_predicted_u16(&mut wide, width, height);
        }
        let mut upper: Vec<u8> = Vec::new();
        let mut j: usize = 0;
        while j < wide.len()
            invariant
                j <= wide@.len(),
                upper@ == upper_bytes(wide@).take(j as int),
            decreases wide@.len() - j,
        {
            upper.push((wide[j] / 256) as u8);
            j += 1;
            assert(upper@ =~= upper_bytes(wide@).take(j as int));
        }
        assert(upper@ =~= upper_bytes(wide@));
        copy_channel_to_pixel_data(target, &upper, offset, step);
    } else if bit_depth == 32 {
        if prediction {
            decode_predicted_u8(&mut raw, width * 4, height);
        }
        let out: Vec<u8> = planar_to_bytes(&raw, width, height);
        pixels::store_samples(&mut target.data, offset, step, &out);
    }
}

/// Stores a ZIP compressed channel in the samples of `pixel_data`; a damaged
/// channel is passed over.
pub fn read_data_zip(
    compressed: &[u8],
    pixel_data: Option<&mut DecodeTarget>,
    width: usize,
    height: usize,
    bit_depth: u32,
    step: usize,
    offset: usize,
    prediction: bool,
)
    requires
        width * 4 <= usize::MAX,
    ensures
        pixel_data matches Some(target) ==> {
            &&& final(target).data@ == zip_stored(
                target.data@,
                target.width * target.height,
                compressed@,
                width as int,
                height as int,
                bit_depth,
                step as int,
                offset as int,
                prediction,
            )
            &&& final(target).width == target.width
            &&& final(target).height == target.height
            &&& final(target).channels == target.channels
        },
{
    match pixel_data {
        None => {},
        Some(target) => match sized_samples(width, height, bit_depth) {
            None => {},
            Some(room) => match zlib::inflate(compressed, room) {
                None => {},
                Some((_, raw, _)) => store_inflated(
                    raw,
                    target,
                    width,
                    height,
                    bit_depth,
                    step,
                    offset,
                    prediction,
                ),
            },
        },
    }
}

/// `data` with the samples of a channel of `length` bytes stored in it. While a ZIP
/// compressed channel is decompressed its samples must fit in the memory limit.
pub open spec fn get_data(
    r: ReaderState,
    length: int,
    data: Option<Seq<u8>>,
    compression: Compression,
    width: int,
    height: int,
    bit_depth: u32,
    offset: int,
    large: bool,
    step: int,
) -> Parsed<Option<Seq<u8>>> {
    if length == 0 {
        Ok((data, r))
    } else if compression == Compression::RleCompressed {
        rle::get_rle(r, data, width, height, bit_depth, step, seq![offset as usize], large)
    } else {
        match reader::get_bytes(r, length) {
            Err(e) => Err(e),
            Ok((stream, r1)) => match data {
                None => Ok((None, r1)),
                Some(d) => if compression == Compression::RawData {
                    Ok(
                        (
                            Some(raw_stored(d, width * height, stream, bit_depth, step, offset)),
                            r1,
                        ),
                    )
                } else {
                    match budget::charged(r1.budget, samples_size(width, height, bit_depth)) {
                        Err(e) => Err(e),
                        Ok(_) => Ok(
                            (
                                Some(
                                    zip_stored(
                                        d,
                                        width * height,
                                        stream,
                                        width,
                                        height,
                                        bit_depth,
                                        step,
                                        offset,
                                        compression == Compression::ZipWithPrediction,
                                    ),
                                ),
                                r1,
                            ),
                        ),
                    }
                },
            },
        }
    }
}

fn read_zip_channel(
    reader: &mut PsdReader,
    length: usize,
    pixels: Option<&mut DecodeTarget>,
    width: usize,
    height: usize,
    bit_depth: u32,
    offset: usize,
    step: usize,
    prediction: bool,
) -> (result: ReadResult<()>)
    requires
        width * 4 <= usize::MAX,
        length > 0,
        pixels matches Some(target) ==> target.width == width && target.height == height,
    ensures
        ({
            let compression = if prediction {
                Compression::ZipWithPrediction
            } else {
                Compression::ZipWithoutPrediction
            };
            match pixels {
                Some(target) => match get_data(
                    old(reader)@,
                    length as int,
                    Some(target.data@),
                    compression,
                    width as int,
                    height as int,
                    bit_depth,
                    offset as int,
                    false,
                    step as int,
                ) {
                    Ok((stored, state)) => result is Ok && final(reader)@ == state && stored
                        == Some(final(target).data@) && final(target).width == target.width
                        && final(target).height == target.height && final(target).channels
                        == target.channels,
                    Err(e) => result matches Err(err) && err@ == e,
                },
                None => match get_data(
                    old(reader)@,
                    length as int,
                    None,
                    compression,
                    width as int,
                    height as int,
                    bit_depth,
                    offset as int,
                    false,
                    step as int,
                ) {
                    Ok((stored, state)) => result is Ok && final(reader)@ == state,
                    Err(e) => result matches Err(err) && err@ == e,
                },
            }
        }),
{
    let data: Vec<u8> = reader::read_bytes(reader, length)?;
    match pixels {
        None => Ok(()),
        Some(target) => {
            let size: Option<usize> = sized_samples(width, height, bit_depth);
            proof {
                if size is None {
                    let n = samples_size(width as int, height as int, bit_depth);
                    assert(budget::charged(reader@.budget, n) == Err::<Option<usize>, ErrorView>(
                        budget::over_budget(reader@.budget, n),
                    ));
                }
            }
            budget::charge(reader.budget, size)?;
            read_data_zip(
                &data,
                Some(target),
                width,
                height,
                bit_depth,
                step,
                offset,
                prediction,
            );
            Ok(())
        },
    }
}

/// Reads a channel of `length` bytes and stores its samples in `pixels`, which
/// has `width * height` pixels.
pub fn read_data(
    reader: &mut PsdReader,
    length: usize,
    pixels: Option<&mut DecodeTarget>,
    compression: Compression,
    width: usize,
    height: usize,
    bit_depth: u32,
    offset: usize,
    large: bool,
    step: usize,
) -> (result: ReadResult<()>)
    requires
        width * 4 <= usize::MAX,
        pixels matches Some(target) ==> target.width == width && target.height == height,
    ensures
        match pixels {
            Some(target) => match get_data(
                old(reader)@,
                length as int,
                Some(target.data@),
                compression,
                width as int,
                height as int,
                bit_depth,
                offset as int,
                large,
                step as int,
            ) {
                Ok((stored, state)) => result is Ok && final(reader)@ == state && stored == Some(
                    final(target).data@,
                ) && final(target).width == target.width && final(target).height == target.height
                    && final(target).channels == target.channels,
                Err(e) => result matches Err(err) && err@ == e,
            },
            None => match get_data(
                old(reader)@,
                length as int,
                None,
                compression,
                width as int,
                height as int,
                bit_depth,
                offset as int,
                large,
                step as int,
            ) {
                Ok((stored, state)) => result is Ok && final(reader)@ == state,
                Err(e) => result matches Err(err) && err@ == e,
            },
        },
{
    if length == 0 {
        return Ok(());
    }
    match compression {
        Compression::RleCompressed => {
            let channels: [usize; 1] = [offset];
            assert(channels@ =~= seq![offset]);
            rle::read_data_rle(reader, pixels, width, height, bit_depth, step, &channels, large)
        },
        Compression::RawData => {
            let data: Vec<u8> = reader::read_bytes(reader, length)?;
            read_data_raw(&data, pixels, bit_depth, step, offset);
            Ok(())
        },
        Compression::ZipWithoutPrediction => {
            read_zip_channel(reader, length, pixels, width, height, bit_depth, offset, step, false)
        },
        Compression::ZipWithPrediction => {
            read_zip_channel(reader, length, pixels, width, height, bit_depth, offset, step, true)
        },
    }
}

fn extract_plane(pixels: &PixelData, channel: usize) -> (samples: Vec<u8>)
    requires
        pixels.deep_view().wf(),
        channel < 4,
    ensures
        samples@ == pixels::plane(pixels.deep_view(), channel as int),
{
    let len: usize = pixels.data.len();
    let size: usize = pixels::bitmap_bytes(pixels.width as usize, pixels.height as usize, 1);
    let mut samples: Vec<u8> = Vec::new();
    let mut i: usize = 0;
    while i < size
        invariant
            i <= size,
            size == pixels.width * pixels.height,
            size * 4 <= len,
            len == pixels.data@.len(),
            channel < 4,
            samples@ == pixels::plane(pixels.deep_view(), channel as int).take(i as int),
        decreases size - i,
    {
        samples.push(pixels.data[4 * i + channel]);
        i += 1;
        assert(samples@ =~= pixels::plane(pixels.deep_view(), channel as int).take(i as int));
    }
    assert(samples@ =~= pixels::plane(pixels.deep_view(), channel as int));
    samples
}

/// Each stream stands for the plane of its channel.
pub open spec fn streams_of(
    streams: Seq<Seq<u8>>,
    p: crate::psd::PixelDataView,
    channels: Seq<usize>,
) -> bool {
    &&& streams.len() == channels.len()
    &&& forall|i: int|
        0 <= i < streams.len() ==> {
            let plane = pixels::plane(p, channels[i] as int);
            &&& #[trigger] streams[i] == zlib::zlib_deflated(plane)
            &&& streams[i].len() > 0
            &&& zlib::stands_for(streams[i], plane)
        }
}

/// Compresses channels of a bitmap, one stream after the other; without channels
/// there is nothing.
pub fn write_data_zip_without_prediction(data_pixels: &PixelData, offsets: &[usize]) -> (packed:
    Option<Vec<u8>>)
    requires
        data_pixels.deep_view().wf(),
        rle::valid_channels(offsets@),
    ensures
        match packed {
            None => offsets@.len() == 0,
            Some(code) => offsets@.len() > 0 && exists|streams: Seq<Seq<u8>>|
                #[trigger] streams_of(streams, data_pixels.deep_view(), offsets@) && code@
                    == bytes::concat(streams),
        },
        offsets@.len() == 1 ==> (packed matches Some(code) && code@.len() > 0 && ({
            let plane = pixels::plane(data_pixels.deep_view(), offsets@[0] as int);
            code@ == zlib::zlib_deflated(plane) && zlib::stands_for(code@, plane)
        })),
{
    if offsets.len() == 0 {
        return None;
    }
    let mut code: Vec<u8> = Vec::new();
    let ghost mut streams = Seq::<Seq<u8>>::empty();
    let mut i: usize = 0;
    while i < offsets.len()
        invariant
            i <= offsets@.len(),
            data_pixels.deep_view().wf(),
            rle::valid_channels(offsets@),
            streams.len() == i,
            streams_of(streams, data_pixels.deep_view(), offsets@.take(i as int)),
            code@ == bytes::concat(streams),
        decreases offsets@.len() - i,
    {
        let plane: Vec<u8> = extract_plane(data_pixels, offsets[i]);
        let mut stream: Vec<u8> = zlib::zlib_deflate(&plane);
        proof {
            bytes::lemma_concat_push(streams, stream@);
            streams = streams.push(stream@);
        }
        code.append(&mut stream);
        i += 1;
    }
    proof {
        assert(offsets@.take(i as int) =~= offsets@);
        if offsets@.len() == 1 {
            assert(streams.drop_last() =~= Seq::<Seq<u8>>::empty());
            assert(bytes::concat(streams.drop_last()) =~= Seq::<u8>::empty());
            assert(code@ =~= streams[0]);
        }
    }
    Some(code)
}

/// Storing a channel does not change how many bytes there are.
pub proof fn lemma_data_len(
    r: ReaderState,
    length: int,
    data: Seq<u8>,
    compression: Compression,
    width: int,
    height: int,
    bit_depth: u32,
    offset: int,
    large: bool,
    step: int,
)
    ensures
        get_data(
            r,
            length,
            Some(data),
            compression,
            width,
            height,
            bit_depth,
            offset,
            large,
            step,
        ) matches Ok((stored, _)) ==> (stored matches Some(d) && d.len() == data.len()),
{
    if length != 0 {
        if compression == Compression::RleCompressed {
            let channels = seq![offset as usize];
            match rle::get_row_lengths(r, channels.len() * height, large) {
                Err(e) => {},
                Ok((lengths, r1)) => {
                    rle::lemma_channels_len(
                        r1,
                        data,
                        lengths,
                        channels,
                        1,
                        width,
                        height,
                        bit_depth,
                        step,
                    );
                },
            }
        } else {
            match reader::get_bytes(r, length) {
                Err(e) => {},
                Ok((stream, r1)) => {
                    pixels::lemma_stored_len(
                        data,
                        offset,
                        step,
                        capped(byte_channel(stream, bit_depth), width * height),
                    );
                    let room = samples_size(width, height, bit_depth) as nat;
                    match zlib::inflated(stream, room) {
                        None => {},
                        Some((_, raw, _)) => {
                            pixels::lemma_stored_len(
                                data,
                                offset,
                                step,
                                zip_samples(
                                    raw,
                                    width * height,
                                    width,
                                    height,
                                    bit_depth,
                                    compression == Compression::ZipWithPrediction,
                                ),
                            );
                        },
                    }
                },
            }
        }
    }
}

/// Where there is nothing to store a channel in there is nothing afterwards.
pub proof fn lemma_data_none(
    r: ReaderState,
    length: int,
    compression: Compression,
    width: int,
    height: int,
    bit_depth: u32,
    offset: int,
    large: bool,
    step: int,
)
    ensures
        get_data(
            r,
            length,
            None,
            compression,
            width,
            height,
            bit_depth,
            offset,
            large,
            step,
        ) matches Ok((stored, _)) ==> stored is None,
{
    if length != 0 && compression == Compression::RleCompressed {
        let channels = seq![offset as usize];
        match rle::get_row_lengths(r, channels.len() * height, large) {
            Err(e) => {},
            Ok((lengths, r1)) => {
                rle::lemma_channels_none(r1, lengths, channels, 1, width, height, bit_depth, step);
            },
        }
    }
}

/// Decoding a ZIP compressed channel of a bitmap of 8-bit samples gives its
/// plane back.
pub proof fn law_zip_round_trip(
    r: ReaderState,
    data: Seq<u8>,
    p: crate::psd::PixelDataView,
    channel: int,
    stream: Seq<u8>,
    step: int,
    large: bool,
)
    requires
        bytes::holds_at(r.buffer, r.offset, stream),
        stream.len() > 0,
        zlib::stands_for(stream, pixels::plane(p, channel)),
        channel < step,
        p.width * p.height <= budget::available(r.budget),
    ensures
        get_data(
            r,
            stream.len() as int,
            Some(data),
            Compression::ZipWithoutPrediction,
            p.width as int,
            p.height as int,
            8,
            channel,
            large,
            step,
        ) == Ok::<(Option<Seq<u8>>, ReaderState), ErrorView>(
            (
                Some(pixels::stored(data, channel, step, pixels::plane(p, channel))),
                r.at(r.offset + stream.len()),
            ),
        ),
{
    bytes::lemma_holds_at_room(r.buffer, r.offset, stream);
    assert(0 <= p.width * p.height == p.width * p.height * 1) by (nonlinear_arith);
}

} // verus!
