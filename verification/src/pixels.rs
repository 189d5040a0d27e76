//! Bitmaps of RGBA pixels and the planes of samples they are made of.

use vstd::prelude::*;

use crate::psd::{PixelData, PixelDataView};

verus! {

broadcast use crate::bytes::group_bytes;

/// Bytes that channels are decoded into: `channels` of them per pixel.
#[derive(Debug)]
pub struct DecodeTarget {
    pub width: usize,
    pub height: usize,
    pub data: Vec<u8>,
    pub channels: usize,
}

/// How many bytes a bitmap takes, where that number fits a machine word.
pub fn bitmap_size(width: usize, height: usize, channels: usize) -> (size: Option<usize>)
    ensures
        match size {
            Some(n) => n == width * height * channels,
            None => width * height * channels > usize::MAX,
        },
{
    if width == 0 || height == 0 || channels == 0 {
        assert(width * height * channels == 0) by (nonlinear_arith)
            requires
                width == 0 || height == 0 || channels == 0,
        ;
        return Some(0);
    }
    match width.checked_mul(height) {
        None => {
            assert(width * height * channels > usize::MAX) by (nonlinear_arith)
                requires
                    width * height > usize::MAX,
                    channels >= 1,
            ;
            None
        },
        Some(area) => area.checked_mul(channels),
    }
}

/// How many bytes a bitmap takes.
pub fn bitmap_bytes(width: usize, height: usize, channels: usize) -> (size: usize)
    requires
        width * height * channels <= usize::MAX,
    ensures
        size == width * height * channels,
{
    match bitmap_size(width, height, channels) {
        Some(size) => size,
        None => 0,
    }
}

impl DecodeTarget {
    /// A target of four channels, all zero.
    pub fn rgba(width: usize, height: usize) -> (target: DecodeTarget)
        requires
            width * height * 4 <= usize::MAX,
        ensures
            target.width == width,
            target.height == height,
            target.channels == 4,
            target.data@ == crate::bytes::zeros(width * height * 4),
    {
        DecodeTarget::wide(width, height, 4)
    }

    /// A target of any number of channels, all zero.
    pub fn wide(width: usize, height: usize, channels: usize) -> (target: DecodeTarget)
        requires
            width * height * channels <= usize::MAX,
        ensures
            target.width == width,
            target.height == height,
            target.channels == channels,
            target.data@ == crate::bytes::zeros(width * height * channels),
    {
        let size: usize = bitmap_bytes(width, height, channels);
        let data: Vec<u8> = vec![0u8; size];
        assert(data@ =~= crate::bytes::zeros(width * height * channels));
        DecodeTarget { width, height, data, channels }
    }

    /// The target as a bitmap.
    pub fn into_pixel_data(self) -> (pixels: PixelData)
        requires
            self.width <= u32::MAX,
            self.height <= u32::MAX,
        ensures
            pixels.width == self.width,
            pixels.height == self.height,
            pixels.data@ == self.data@,
    {
        PixelData { width: self.width as u32, height: self.height as u32, data: self.data }
    }
}

/// `data` with `samples` in every `step`-th place from `at` on; what would lie
/// past the end is dropped.
pub open spec fn stored(data: Seq<u8>, at: int, step: int, samples: Seq<u8>) -> Seq<u8>
    decreases samples.len(),
{
    if samples.len() == 0 {
        data
    } else {
        let before = stored(data, at, step, samples.drop_last());
        let place = at + step * (samples.len() - 1);
        if 0 <= place < data.len() {
            before.update(place, samples.last())
        } else {
            before
        }
    }
}

/// Storing samples does not change how many bytes there are.
pub proof fn lemma_stored_len(data: Seq<u8>, at: int, step: int, samples: Seq<u8>)
    ensures
        stored(data, at, step, samples).len() == data.len(),
    decreases samples.len(),
{
    if samples.len() > 0 {
        lemma_stored_len(data, at, step, samples.drop_last());
    }
}

/// Each sample ends up in its place, and every other place keeps its byte.
pub proof fn lemma_stored(data: Seq<u8>, at: int, step: int, samples: Seq<u8>)
    requires
        0 <= at,
        step >= 1,
    ensures
        stored(data, at, step, samples).len() == data.len(),
        forall|k: int|
            0 <= k < samples.len() && at + step * k < data.len() ==> #[trigger] stored(
                data,
                at,
                step,
                samples,
            )[at + step * k] == samples[k],
        forall|i: int|
            0 <= i < data.len() && (forall|k: int|
                0 <= k < samples.len() ==> i != #[trigger] (at + step * k)) ==> #[trigger] stored(
                data,
                at,
                step,
                samples,
            )[i] == data[i],
    decreases samples.len(),
{
    if samples.len() > 0 {
        let shorter = samples.drop_last();
        let n = samples.len() - 1;
        let before = stored(data, at, step, shorter);
        let after = stored(data, at, step, samples);
        lemma_stored(data, at, step, shorter);
        assert forall|k: int| 0 <= k < samples.len() && at + step * k < data.len() implies #[trigger] after[at
            + step * k] == samples[k] by {
            if k < n {
                assert(step * k < step * n) by (nonlinear_arith)
                    requires
                        k < n,
                        step >= 1,
                ;
                assert(0 <= step * k) by (nonlinear_arith)
                    requires
                        0 <= k,
                        step >= 1,
                ;
                assert(before[at + step * k] == shorter[k]);
            } else {
                assert(0 <= step * k) by (nonlinear_arith)
                    requires
                        0 <= k,
                        step >= 1,
                ;
            }
        }
        assert forall|i: int|
            0 <= i < data.len() && (forall|k: int|
                0 <= k < samples.len() ==> i != #[trigger] (at + step * k)) implies #[trigger] after[i]
            == data[i] by {
            assert(i != at + step * n);
            assert forall|k: int| 0 <= k < shorter.len() implies i != #[trigger] (at + step * k) by {}
            assert(before[i] == data[i]);
        }
    }
}

/// Puts `samples` in every `step`-th place from `at` on.
pub fn store_samples(data: &mut Vec<u8>, at: usize, step: usize, samples: &[u8])
    ensures
        final(data)@ == stored(old(data)@, at as int, step as int, samples@),
{
    let mut p: usize = at;
    let mut i: usize = 0;
    let size: usize = data.len();
    assert(samples@.take(0) =~= Seq::<u8>::empty());
    assert(step * 0 == 0);
    while i < samples.len()
        invariant
            i <= samples@.len(),
            size == old(data)@.len(),
            data@.len() == size,
            p == crate::bytes::clamp_offset(at + step * i),
            data@ == stored(old(data)@, at as int, step as int, samples@.take(i as int)),
        decreases samples@.len() - i,
    {
        proof {
            assert(samples@.take(i + 1).drop_last() =~= samples@.take(i as int));
            assert(step * (i + 1) == step * i + step) by (nonlinear_arith);
            assert(0 <= step * i) by (nonlinear_arith);
            lemma_stored_len(old(data)@, at as int, step as int, samples@.take(i + 1));
        }
        if p < size {
            data.set(p, samples[i]);
        }
        p = p.saturating_add(step);
        i += 1;
    }
    assert(samples@.take(i as int) =~= samples@);
}

/// The samples of one channel of a bitmap, row by row.
pub open spec fn plane(p: PixelDataView, channel: int) -> Seq<u8> {
    Seq::new((p.width * p.height) as nat, |i: int| p.data[4 * i + channel])
}

/// One row of the samples of one channel of a bitmap.
pub open spec fn plane_row(p: PixelDataView, channel: int, y: int) -> Seq<u8> {
    Seq::new(p.width as nat, |x: int| p.data[4 * (y * p.width + x) + channel])
}

/// The opacity of a pixel.
pub open spec fn alpha_at(p: PixelDataView, pixel: int) -> u8 {
    p.data[4 * pixel + 3]
}

/// Some pixel is not fully opaque.
pub open spec fn has_transparency(p: PixelDataView) -> bool {
    exists|i: int| 0 <= i < p.width * p.height && #[trigger] alpha_at(p, i) != 255
}

/// Whether some pixel is not fully opaque.
pub fn has_alpha(data: &PixelData) -> (found: bool)
    requires
        data.deep_view().wf(),
    ensures
        found == has_transparency(data.deep_view()),
{
    let ghost view = data.deep_view();
    let len: usize = data.data.len();
    assert(data.width * data.height * 4 == data.width * data.height * 4int) by (nonlinear_arith);
    let size: usize = bitmap_bytes(data.width as usize, data.height as usize, 1);
    let mut i: usize = 0;
    while i < size
        invariant
            i <= size,
            size == data.width * data.height,
            size * 4 <= data.data@.len() <= usize::MAX,
            view == data.deep_view(),
            forall|j: int| 0 <= j < i ==> #[trigger] alpha_at(view, j) == 255,
        decreases size - i,
    {
        assert(data.data@[4 * i + 3] == alpha_at(view, i as int));
        if data.data[4 * i + 3] != 255 {
            return true;
        }
        i += 1;
    }
    false
}

/// Black, fully opaque pixels.
pub open spec fn opaque_black(len: int) -> Seq<u8> {
    Seq::new(
        len as nat,
        |i: int|
            if i % 4 == 3 {
                255u8
            } else {
                0u8
            },
    )
}

/// Makes every byte that of a black, opaque pixel.
pub fn fill_opaque_black(data: &mut Vec<u8>)
    ensures
        final(data)@ == opaque_black(old(data)@.len() as int),
{
    let len: usize = data.len();
    let mut i: usize = 0;
    while i < len
        invariant
            i <= len,
            len == old(data)@.len(),
            data@.len() == len,
            forall|j: int|
                0 <= j < i ==> #[trigger] data@[j] == (if j % 4 == 3 {
                    255u8
                } else {
                    0u8
                }),
        decreases len - i,
    {
        data.set(
            i,
            if i % 4 == 3 {
                255
            } else {
                0
            },
        );
        i += 1;
    }
    assert(data@ =~= opaque_black(len as int));
}

/// Makes every pixel black and opaque.
pub fn reset_image_data(data: &mut PixelData)
    requires
        old(data).data@.len() % 4 == 0,
    ensures
        final(data).data@ == opaque_black(old(data).data@.len() as int),
        final(data).width == old(data).width,
        final(data).height == old(data).height,
{
    fill_opaque_black(&mut data.data);
}

/// The first channel of the first `size` bytes copied to the second and third.
pub open spec fn grayed(data: Seq<u8>, size: int) -> Seq<u8> {
    Seq::new(
        data.len(),
        |i: int|
            if i < size && (i % 4 == 1 || i % 4 == 2) {
                data[i - i % 4]
            } else {
                data[i]
            },
    )
}

/// Copies the first channel of each pixel to the second and third.
pub fn setup_grayscale(data: &mut Vec<u8>, width: usize, height: usize)
    requires
        width * height * 4 <= old(data)@.len(),
    ensures
        final(data)@ == grayed(old(data)@, width * height * 4),
{
    let len: usize = data.len();
    let size: usize = bitmap_bytes(width, height, 4);
    let mut i: usize = 0;
    assert(size % 4 == 0) by (nonlinear_arith)
        requires
            size == width * height * 4,
    ;
    while i < size
        invariant
            i <= size <= len,
            i % 4 == 0,
            size % 4 == 0,
            size == width * height * 4,
            len == old(data)@.len(),
            data@.len() == len,
            forall|j: int|
                0 <= j < len ==> #[trigger] data@[j] == (if j < i {
                    grayed(old(data)@, size as int)[j]
                } else {
                    old(data)@[j]
                }),
        decreases size - i,
    {
        let c: u8 = data[i];
        assert(grayed(old(data)@, size as int)[i as int] == c);
        assert(grayed(old(data)@, size as int)[i + 1] == c);
        assert(grayed(old(data)@, size as int)[i + 2] == c);
        assert(grayed(old(data)@, size as int)[i + 3] == old(data)@[i + 3]);
        data.set(i + 1, c);
        data.set(i + 2, c);
        i += 4;
    }
    assert(data@ =~= grayed(old(data)@, size as int));
}

/// The last channel of each pixel fully opaque.
pub open spec fn opaque(data: Seq<u8>, channels: int) -> Seq<u8> {
    Seq::new(
        data.len(),
        |i: int|
            if i % channels == channels - 1 {
                255u8
            } else {
                data[i]
            },
    )
}

/// Makes every pixel fully opaque.
pub fn reset_alpha(data: &mut Vec<u8>, channels: usize)
    requires
        channels == 4 || channels == 5,
    ensures
        final(data)@ == opaque(old(data)@, channels as int),
{
    let len: usize = data.len();
    let mut i: usize = 0;
    while i < len
        invariant
            i <= len,
            len == old(data)@.len(),
            data@.len() == len,
            channels == 4 || channels == 5,
            forall|j: int|
                0 <= j < len ==> #[trigger] data@[j] == (if j < i {
                    opaque(old(data)@, channels as int)[j]
                } else {
                    old(data)@[j]
                }),
        decreases len - i,
    {
        if i % channels == channels - 1 {
            data.set(i, 255);
        }
        i += 1;
    }
    assert(data@ =~= opaque(old(data)@, channels as int));
}

/// The weight of the `k`-th bit of a byte, the most significant first.
pub open spec fn bit_weight(k: int) -> int {
    if k == 0 {
        128
    } else if k == 1 {
        64
    } else if k == 2 {
        32
    } else if k == 3 {
        16
    } else if k == 4 {
        8
    } else if k == 5 {
        4
    } else if k == 6 {
        2
    } else {
        1
    }
}

/// The sample of a pixel of a bitmap of one bit per pixel: a set bit is black.
pub open spec fn bit_sample(input: Seq<u8>, width: int, x: int, y: int) -> u8 {
    let b = input[y * ((width + 7) / 8) + x / 8];
    if (b as int / bit_weight(x % 8)) % 2 == 1 {
        0
    } else {
        255
    }
}

fn bit_weight_of(k: usize) -> (w: u8)
    requires
        k < 8,
    ensures
        w == bit_weight(k as int),
        w >= 1,
{
    match k {
        0 => 128,
        1 => 64,
        2 => 32,
        3 => 16,
        4 => 8,
        5 => 4,
        6 => 2,
        _ => 1,
    }
}

/// Unpacks a bitmap of one bit per pixel, whose rows start at full bytes, into
/// opaque black and white pixels.
pub fn decode_bitmap(input: &[u8], output: &mut Vec<u8>, width: usize, height: usize)
    requires
        ((width + 7) / 8) * height <= input@.len(),
        width * height * 4 <= old(output)@.len(),
    ensures
        final(output)@ == bitmap_decoded(input@, old(output)@, width as int, height as int),
{
    let len: usize = output.len();
    let in_len: usize = input.len();
    if width == 0 || height == 0 {
        assert(width * height * 4 == 0) by (nonlinear_arith)
            requires
                width == 0 || height == 0,
        ;
        assert(output@ =~= bitmap_decoded(input@, output@, width as int, height as int));
        return;
    }
    assert(width <= len && width * height <= len) by (nonlinear_arith)
        requires
            width * height * 4 <= len,
            height >= 1,
            width >= 1,
    ;
    let stride: usize = width / 8 + (if width % 8 == 0 {
        0usize
    } else {
        1usize
    });
    assert(stride == (width + 7) / 8);
    let mut y: usize = 0;
    while y < height
        invariant
            y <= height,
            width >= 1,
            stride == (width + 7) / 8,
            stride * height <= in_len,
            width * height * 4 <= len,
            in_len == input@.len(),
            len == old(output)@.len(),
            output@.len() == len,
            forall|x: int, j: int, c: int|
                #![trigger bit_pixel(output@, width as int, x, j, c)]
                0 <= x < width && 0 <= j < y && 0 <= c < 4 ==> bit_pixel(
                    output@,
                    width as int,
                    x,
                    j,
                    c,
                ) == (if c == 3 {
                    255
                } else {
                    bit_sample(input@, width as int, x, j)
                }),
            forall|i: int|
                width * height * 4 <= i < len ==> #[trigger] output@[i] == old(output)@[i],
        decreases height - y,
    {
        let mut x: usize = 0;
        assert(y * width + width <= width * height && y * stride + stride <= stride * height)
            by (nonlinear_arith)
            requires
                y + 1 <= height,
                0 <= width,
                0 <= stride,
        ;
        while x < width
            invariant
                x <= width,
                y < height,
                width >= 1,
                stride == (width + 7) / 8,
                y * stride + stride <= in_len,
                y * width + width <= width * height,
                width * height * 4 <= len,
                in_len == input@.len(),
                len == old(output)@.len(),
                output@.len() == len,
                forall|a: int, j: int, c: int|
                    #![trigger bit_pixel(output@, width as int, a, j, c)]
                    0 <= a < width && 0 <= j <= y && (j < y || a < x) && 0 <= c < 4 ==> bit_pixel(
                        output@,
                        width as int,
                        a,
                        j,
                        c,
                    ) == (if c == 3 {
                        255
                    } else {
                        bit_sample(input@, width as int, a, j)
                    }),
                forall|i: int|
                    width * height * 4 <= i < len ==> #[trigger] output@[i] == old(output)@[i],
            decreases width - x,
        {
            assert(0 <= y * width && 0 <= y * stride) by (nonlinear_arith);
            let b: u8 = input[y * stride + x / 8];
            let v: u8 = if (b / bit_weight_of(x % 8)) % 2 == 1 {
                0
            } else {
                255
            };
            let pixel: usize = y * width + x;
            let ghost before = output@;
            output.set(4 * pixel, v);
            output.set(4 * pixel + 1, v);
            output.set(4 * pixel + 2, v);
            output.set(4 * pixel + 3, 255);
            assert forall|a: int, j: int, c: int|
                #![trigger bit_pixel(output@, width as int, a, j, c)]
                0 <= a < width && 0 <= j <= y && (j < y || a < x + 1) && 0 <= c < 4 implies bit_pixel(
                output@,
                width as int,
                a,
                j,
                c,
            ) == (if c == 3 {
                255
            } else {
                bit_sample(input@, width as int, a, j)
            }) by {
                if j == y && a == x {
                } else {
                    if j < y {
                        assert(j * width + width <= y * width) by (nonlinear_arith)
                            requires
                                j + 1 <= y,
                                0 <= width,
                        ;
                    }
                    assert(0 <= j * width) by (nonlinear_arith)
                        requires
                            0 <= j,
                            0 <= width,
                    ;
                    assert(bit_pixel(before, width as int, a, j, c) == bit_pixel(
                        output@,
                        width as int,
                        a,
                        j,
                        c,
                    ));
                }
            }
            x += 1;
        }
        y += 1;
    }
    let ghost expected = bitmap_decoded(input@, old(output)@, width as int, height as int);
    assert forall|i: int| 0 <= i < len implies #[trigger] output@[i] == expected[i] by {
        if i < width * height * 4 {
            let w = width as int;
            let row = (i / 4) / w;
            let column = (i / 4) % w;
            vstd::arithmetic::div_mod::lemma_fundamental_div_mod(i / 4, w);
            assert(0 <= column < w && 0 <= row < height && row * w + column == i / 4)
                by (nonlinear_arith)
                requires
                    i / 4 == w * row + column,
                    0 <= column < w,
                    0 <= i / 4 < w * height,
                    w >= 1,
                    column == (i / 4) % w,
            ;
            assert(bit_pixel(output@, w, column, row, i % 4) == output@[i]);
        }
    }
    assert(output@ =~= expected);
}

/// `output` with its first `width * height` pixels unpacked from `input`.
pub open spec fn bitmap_decoded(input: Seq<u8>, output: Seq<u8>, width: int, height: int) -> Seq<
    u8,
> {
    Seq::new(
        output.len(),
        |i: int|
            if i >= width * height * 4 {
                output[i]
            } else if i % 4 == 3 {
                255u8
            } else {
                bit_sample(input, width, (i / 4) % width, (i / 4) / width)
            },
    )
}

/// One byte of a pixel of a bitmap.
pub open spec fn bit_pixel(data: Seq<u8>, width: int, x: int, y: int, c: int) -> u8 {
    data[4 * (y * width + x) + c]
}

/// The samples of one channel, where the bitmap holds them all.
pub open spec fn raw_channel(data: Seq<u8>, offset: int, count: int) -> Option<Seq<u8>> {
    if count > 0 && 4 * (count - 1) + offset < data.len() {
        Some(Seq::new(count as nat, |i: int| data[4 * i + offset]))
    } else {
        None
    }
}

/// Extracts the samples of one channel of `width * height` pixels; nothing where
/// there are none or the bitmap is too short.
pub fn write_data_raw(data: &PixelData, offset: usize, width: usize, height: usize) -> (channel:
    Option<Vec<u8>>)
    ensures
        match channel {
            Some(c) => raw_channel(data.data@, offset as int, width * height) == Some(c@),
            None => raw_channel(data.data@, offset as int, width * height) is None,
        },
{
    let len: usize = data.data.len();
    let count: usize = match bitmap_size(width, height, 1) {
        None => {
            return None;
        },
        Some(n) => n,
    };
    if count == 0 || offset >= len || count - 1 > (len - 1 - offset) / 4 {
        return None;
    }
    let mut channel: Vec<u8> = Vec::new();
    let mut i: usize = 0;
    while i < count
        invariant
            i <= count,
            count - 1 <= (len - 1 - offset) / 4,
            offset < len,
            len == data.data@.len(),
            channel@ == Seq::new(i as nat, |k: int| data.data@[4 * k + offset]),
        decreases count - i,
    {
        channel.push(data.data[4 * i + offset]);
        i += 1;
        assert(channel@ =~= Seq::new(i as nat, |k: int| data.data@[4 * k + offset]));
    }
    Some(channel)
}

/// A copy of the bitmap.
pub fn image_data_to_canvas(pixel_data: &PixelData) -> (canvas: PixelData)
    ensures
        canvas.deep_view() == pixel_data.deep_view(),
{
    pixel_data.duplicate()
}

/// A bitmap of transparent black pixels.
pub fn create_canvas(width: u32, height: u32) -> (canvas: PixelData)
    requires
        width * height * 4 <= usize::MAX,
    ensures
        canvas.width == width,
        canvas.height == height,
        canvas.data@ == crate::bytes::zeros(width * height * 4),
{
    DecodeTarget::rgba(width as usize, height as usize).into_pixel_data()
}

/// A bitmap of transparent black pixels.
pub fn create_image_data(width: u32, height: u32) -> (canvas: PixelData)
    requires
        width * height * 4 <= usize::MAX,
    ensures
        canvas.width == width,
        canvas.height == height,
        canvas.data@ == crate::bytes::zeros(width * height * 4),
{
    create_canvas(width, height)
}

/// The bitmap that stands for an encoded picture: a transparent square of 100
/// pixels, whatever the picture is.
pub fn create_canvas_from_data(data: &[u8]) -> (canvas: PixelData)
    ensures
        canvas.width == 100,
        canvas.height == 100,
        canvas.data@ == crate::bytes::zeros(40000),
{
    create_canvas(100, 100)
}

/// There is nothing to set up before bitmaps are made.
pub fn initialize_canvas() {
}

} // verus!
