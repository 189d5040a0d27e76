//! Patterns: small RGBA images with a name.

use vstd::prelude::*;

use crate::budget;
use crate::bytes;
use crate::codec;
use crate::decode;
use crate::error::{ErrorView, ReadError, ReadResult};
use crate::mask;
use crate::palette;
use crate::pixels;
use crate::pixels::DecodeTarget;
use crate::psd::{ColorMode, PaletteColor, PatternBounds, PatternInfo, PatternView};
use crate::reader;
use crate::reader::{Parsed, PsdReader, ReaderState};
use crate::rle;
use crate::text;

verus! {

broadcast use crate::bytes::group_bytes;

/// A rectangle in the coordinates of a pattern.
#[derive(Clone, Copy, Debug, PartialEq, Eq, Structural)]
pub struct Rect {
    pub top: u32,
    pub left: u32,
    pub bottom: u32,
    pub right: u32,
}

impl DeepView for Rect {
    type V = Rect;

    open spec fn deep_view(&self) -> Rect {
        *self
    }
}

impl Rect {
    pub open spec fn width(self) -> int {
        self.right - self.left
    }

    pub open spec fn height(self) -> int {
        self.bottom - self.top
    }

    /// The rectangle is not turned inside out, and no side is too long.
    pub open spec fn valid(self, large: bool) -> bool {
        &&& 0 <= self.width() <= mask::max_side(large)
        &&& 0 <= self.height() <= mask::max_side(large)
    }
}

/// The rectangle at the cursor, where it is valid.
pub open spec fn get_rect(r: ReaderState) -> Parsed<Rect> {
    match reader::get_u32(r) {
        Err(e) => Err(e),
        Ok((top, r1)) => match reader::get_u32(r1) {
            Err(e) => Err(e),
            Ok((left, r2)) => match reader::get_u32(r2) {
                Err(e) => Err(e),
                Ok((bottom, r3)) => match reader::get_u32(r3) {
                    Err(e) => Err(e),
                    Ok((right, r4)) => {
                        let rect = Rect { top, left, bottom, right };
                        if rect.valid(r.large) {
                            Ok((rect, r4))
                        } else {
                            Err(
                                ErrorView::InvalidBoxSize {
                                    kind: "pattern"@,
                                    width: rect.width(),
                                    height: rect.height(),
                                },
                            )
                        }
                    },
                },
            },
        },
    }
}

fn read_rect(reader: &mut PsdReader) -> (result: ReadResult<Rect>)
    ensures
        reader::reads(result, old(reader)@, final(reader)@, get_rect(old(reader)@)),
        result matches Ok(rect) ==> rect.valid(old(reader).large),
{
    let top: u32 = reader::read_uint32(reader)?;
    let left: u32 = reader::read_uint32(reader)?;
    let bottom: u32 = reader::read_uint32(reader)?;
    let right: u32 = reader::read_uint32(reader)?;
    let width: i64 = right as i64 - left as i64;
    let height: i64 = bottom as i64 - top as i64;
    let limit: i64 = if reader.large {
        300000
    } else {
        30000
    };
    if width < 0 || height < 0 || width > limit || height > limit {
        return Err(ReadError::InvalidBoxSize { kind: text::owned_text("pattern"), width, height });
    }
    Ok(Rect { top, left, bottom, right })
}

/// Where the `n`-th sample of a channel with rows of `w` samples goes in the pixels
/// of a pattern with rows of `width` pixels.
pub open spec fn place_of(n: int, w: int, width: int, ox: int, oy: int) -> int {
    4 * (ox + n % w + (n / w + oy) * width)
}

/// `data` with the first `n` samples of a channel put in their places; a sample
/// that has no place in `data` is dropped.
pub open spec fn placed(
    data: Seq<u8>,
    samples: Seq<u8>,
    n: int,
    w: int,
    width: int,
    ox: int,
    oy: int,
    offset: int,
) -> Seq<u8>
    decreases n,
{
    if n <= 0 {
        data
    } else {
        let before = placed(data, samples, n - 1, w, width, ox, oy, offset);
        let place = place_of(n - 1, w, width, ox, oy);
        if n - 1 < samples.len() && 0 <= place && place + offset < data.len() {
            before.update(place + offset, samples[n - 1])
        } else {
            before
        }
    }
}

/// Putting samples in their places does not change how many bytes there are.
pub proof fn lemma_placed_len(
    data: Seq<u8>,
    samples: Seq<u8>,
    n: int,
    w: int,
    width: int,
    ox: int,
    oy: int,
    offset: int,
)
    requires
        0 <= offset,
    ensures
        placed(data, samples, n, w, width, ox, oy, offset).len() == data.len(),
    decreases n,
{
    if n > 0 {
        lemma_placed_len(data, samples, n - 1, w, width, ox, oy, offset);
    }
}

/// Puts the samples of a channel of `w` by `h` samples in their places in the
/// pixels of a pattern.
pub fn copy_channel_to_rgba(
    samples: &Vec<u8>,
    data: &mut Vec<u8>,
    w: usize,
    h: usize,
    width: usize,
    ox: i64,
    oy: i64,
    offset: usize,
)
    requires
        w <= 300000,
        h <= 300000,
        width <= 300000,
        -0x1_0000_0000 <= ox <= 0x1_0000_0000,
        -0x1_0000_0000 <= oy <= 0x1_0000_0000,
        offset < 4,
    ensures
        final(data)@ == placed(
            old(data)@,
            samples@,
            w * h,
            w as int,
            width as int,
            ox as int,
            oy as int,
            offset as int,
        ),
{
    let ghost given = data@;
    let len: usize = data.len();
    assert(0 <= w * h <= 90_000_000_000) by (nonlinear_arith)
        requires
            0 <= w <= 300000,
            0 <= h <= 300000,
    ;
    let count: u64 = w as u64 * h as u64;
    let mut n: u64 = 0;
    while n < count
        invariant
            n <= count,
            count == w * h,
            count <= 90_000_000_000,
            w <= 300000,
            h <= 300000,
            width <= 300000,
            -0x1_0000_0000 <= ox <= 0x1_0000_0000,
            -0x1_0000_0000 <= oy <= 0x1_0000_0000,
            offset < 4,
            given == old(data)@,
            data@.len() == len,
            given.len() == len,
            data@ == placed(
                given,
                samples@,
                n as int,
                w as int,
                width as int,
                ox as int,
                oy as int,
                offset as int,
            ),
        decreases count - n,
    {
        assert(w > 0) by (nonlinear_arith)
            requires
                n < count,
                count == w * h,
                0 <= w,
                0 <= n,
        ;
        assert(0 <= (n as int) / (w as int) <= n && 0 <= (n as int) % (w as int) < w)
            by (nonlinear_arith)
            requires
                w > 0,
                n >= 0,
        ;
        let x: i64 = (n % w as u64) as i64;
        let y: i64 = (n / w as u64) as i64;
        assert(-30_000_000_000_000_000 <= (y + oy) * width <= 30_000_000_000_000_000)
            by (nonlinear_arith)
            requires
                -0x1_0000_0000 <= y + oy <= 95_000_000_000,
                0 <= width <= 300000,
        ;
        let place: i64 = 4 * (ox + x + (y + oy) * width as i64);
        assert(place == place_of(n as int, w as int, width as int, ox as int, oy as int));
        if n < samples.len() as u64 && place >= 0 && (place as u64) + (offset as u64) < len as u64 {
            data.set(place as usize + offset, samples[n as usize]);
        }
        n += 1;
    }
}

/// The colour modes of patterns, by their numbers.
pub open spec fn pattern_mode(code: u32) -> Option<ColorMode> {
    let low = code % 0x1_0000;
    if low == 1 {
        Some(ColorMode::Grayscale)
    } else if low == 2 {
        Some(ColorMode::Indexed)
    } else if low == 3 {
        Some(ColorMode::Rgb)
    } else {
        None
    }
}

/// A channel of a pattern as it is stored.
#[verifier::ext_equal]
pub struct PatternChannelView {
    pub rect: Rect,
    pub depth: u32,
    pub depth2: u16,
    pub compression: u8,
    pub data: Seq<u8>,
}

struct PatternChannel {
    rect: Rect,
    depth: u32,
    depth2: u16,
    compression: u8,
    data: Vec<u8>,
}

impl DeepView for PatternChannel {
    type V = PatternChannelView;

    closed spec fn deep_view(&self) -> PatternChannelView {
        PatternChannelView {
            rect: self.rect,
            depth: self.depth,
            depth2: self.depth2,
            compression: self.compression,
            data: self.data@,
        }
    }
}

/// How many of the bytes of a channel are samples.
pub open spec fn samples_length(length: u32) -> int {
    if length < 23 {
        0
    } else {
        length - 23
    }
}

/// A channel, where there is one: its length, its depth, its rectangle, its depth
/// once more, how it is compressed, and its code.
#[verifier::opaque]
pub open spec fn get_pattern_channel(r: ReaderState) -> Parsed<Option<PatternChannelView>> {
    match reader::get_u32(r) {
        Err(e) => Err(e),
        Ok((has, r1)) => if has == 0 {
            Ok((None, r1))
        } else {
            match reader::get_u32(r1) {
                Err(e) => Err(e),
                Ok((length, r2)) => match reader::get_u32(r2) {
                    Err(e) => Err(e),
                    Ok((depth, r3)) => match get_rect(r3) {
                        Err(e) => Err(e),
                        Ok((rect, r4)) => match reader::get_u16(r4) {
                            Err(e) => Err(e),
                            Ok((depth2, r5)) => match reader::get_u8(r5) {
                                Err(e) => Err(e),
                                Ok((compression, r6)) => match reader::get_bytes(
                                    r6,
                                    samples_length(length),
                                ) {
                                    Err(e) => Err(e),
                                    Ok((data, r7)) => Ok(
                                        (
                                            Some(
                                                PatternChannelView {
                                                    rect,
                                                    depth,
                                                    depth2,
                                                    compression,
                                                    data,
                                                },
                                            ),
                                            r7,
                                        ),
                                    ),
                                },
                            },
                        },
                    },
                },
            }
        },
    }
}

fn read_pattern_channel(reader: &mut PsdReader) -> (result: ReadResult<Option<PatternChannel>>)
    ensures
        reader::reads(result, old(reader)@, final(reader)@, get_pattern_channel(old(reader)@)),
        result matches Ok(Some(c)) ==> c.rect.valid(old(reader).large),
{
    reveal(get_pattern_channel);
    let has: u32 = reader::read_uint32(reader)?;
    if has == 0 {
        return Ok(None);
    }
    let length: u32 = reader::read_uint32(reader)?;
    let depth: u32 = reader::read_uint32(reader)?;
    let rect: Rect = read_rect(reader)?;
    let depth2: u16 = reader::read_uint16(reader)?;
    let compression: u8 = reader::read_uint8(reader)?;
    let count: u32 = length.saturating_sub(23);
    let data: Vec<u8> = reader::read_bytes(reader, count as usize)?;
    Ok(Some(PatternChannel { rect, depth, depth2, compression, data }))
}

/// The samples of a channel of a pattern, as they are or decoded, reduced to bytes.
pub open spec fn pattern_samples(c: PatternChannelView, budget: Option<usize>) -> Result<
    Seq<u8>,
    ErrorView,
> {
    let w = c.rect.width() * codec::bytes_per_sample(c.depth);
    let h = c.rect.height();
    if c.compression == 0 {
        Ok(codec::byte_channel(c.data, c.depth))
    } else {
        match budget::charged(budget, w * h) {
            Err(e) => Err(e),
            Ok(left) => match rle::get_rle(
                decode::channel_reader(c.data, left),
                Some(bytes::zeros(w * h)),
                w,
                h,
                8,
                1,
                seq![0usize],
                false,
            ) {
                Err(e) => Err(e),
                Ok((samples, _)) => Ok(codec::byte_channel(samples->Some_0, c.depth)),
            },
        }
    }
}

/// One of the three samples of the palette colours of samples; a sample without a
/// colour is black.
pub open spec fn palette_plane(
    samples: Seq<u8>,
    colors: Seq<PaletteColor>,
    channel: int,
) -> Seq<u8> {
    Seq::new(
        samples.len(),
        |i: int|
            if samples[i] < colors.len() {
                palette::color_sample(colors[samples[i] as int], channel)
            } else {
                0u8
            },
    )
}

fn look_up(samples: &Vec<u8>, colors: &Vec<PaletteColor>, channel: usize) -> (plane: Vec<u8>)
    ensures
        plane@ == palette_plane(samples@, colors@, channel as int),
{
    let mut plane: Vec<u8> = Vec::new();
    let mut i: usize = 0;
    while i < samples.len()
        invariant
            i <= samples@.len(),
            plane@ == palette_plane(samples@, colors@, channel as int).take(i as int),
        decreases samples@.len() - i,
    {
        let index: usize = samples[i] as usize;
        let sample: u8 = if index < colors.len() {
            let c: PaletteColor = colors[index];
            if channel == 0 {
                c.r
            } else if channel == 1 {
                c.g
            } else {
                c.b
            }
        } else {
            0
        };
        plane.push(sample);
        i += 1;
        assert(plane@ =~= palette_plane(samples@, colors@, channel as int).take(i as int));
    }
    assert(plane@ =~= palette_plane(samples@, colors@, channel as int));
    plane
}

/// `data` with the samples of a channel as the sample `offset` of the pixels.
pub open spec fn with_channel(
    data: Seq<u8>,
    samples: Seq<u8>,
    c: Rect,
    whole: Rect,
    offset: int,
) -> Seq<u8> {
    placed(
        data,
        samples,
        c.width() * c.height(),
        c.width(),
        whole.width(),
        c.left - whole.left,
        c.top - whole.top,
        offset,
    )
}

/// Samples of this depth are read.
pub open spec fn supported_depth(depth: u32) -> bool {
    depth == 8 || depth == 16 || depth == 32
}

/// `data` with the `ch`-th channel of a pattern. Run-length coded samples of an
/// indexed pattern are refused.
#[verifier::opaque]
pub open spec fn pattern_step(
    data: Seq<u8>,
    c: PatternChannelView,
    whole: Rect,
    mode: ColorMode,
    colors: Seq<PaletteColor>,
    ch: int,
    budget: Option<usize>,
) -> Result<Seq<u8>, ErrorView> {
    if !supported_depth(c.depth) || c.depth2 != c.depth {
        Err(ErrorView::StrictViolation("16bit pixel depth not supported for patterns"@))
    } else if c.compression > 1 {
        Err(ErrorView::StrictViolation("Invalid pattern compression mode"@))
    } else if mode == ColorMode::Indexed && c.compression == 1 {
        Err(ErrorView::StrictViolation("Indexed pattern color mode not implemented"@))
    } else if mode == ColorMode::Indexed && ch < 1 {
        match pattern_samples(c, budget) {
            Err(e) => Err(e),
            Ok(samples) => {
                let red = with_channel(
                    data,
                    palette_plane(samples, colors, 0),
                    c.rect,
                    whole,
                    0,
                );
                let green = with_channel(
                    red,
                    palette_plane(samples, colors, 1),
                    c.rect,
                    whole,
                    1,
                );
                Ok(with_channel(green, palette_plane(samples, colors, 2), c.rect, whole, 2))
            },
        }
    } else if mode == ColorMode::Rgb && ch < 3 {
        match pattern_samples(c, budget) {
            Err(e) => Err(e),
            Ok(samples) => Ok(with_channel(data, samples, c.rect, whole, ch)),
        }
    } else if mode == ColorMode::Grayscale && ch < 1 {
        match pattern_samples(c, budget) {
            Err(e) => Err(e),
            Ok(samples) => {
                let red = with_channel(data, samples, c.rect, whole, 0);
                let green = with_channel(red, samples, c.rect, whole, 1);
                Ok(with_channel(green, samples, c.rect, whole, 2))
            },
        }
    } else {
        Ok(data)
    }
}

fn decode_pattern_samples(c: PatternChannel, budget: Option<usize>) -> (result: ReadResult<Vec<u8>>)
    requires
        c.rect.valid(true),
        supported_depth(c.depth),
    ensures
        match pattern_samples(c.deep_view(), budget) {
            Ok(samples) => result matches Ok(s) && s@ == samples,
            Err(e) => result matches Err(err) && err@ == e,
        },
{
    let each: usize = if c.depth == 16 {
        2
    } else if c.depth == 32 {
        4
    } else {
        1
    };
    if c.compression == 0 {
        return Ok(codec::bytes_to_u8_channel(&c.data, c.depth));
    }
    let w: usize = (c.rect.right - c.rect.left) as usize * each;
    let h: usize = (c.rect.bottom - c.rect.top) as usize;
    let size: Option<usize> = pixels::bitmap_size(w, h, 1);
    proof {
        if size is None {
            assert(budget::charged(budget, w * h) == Err::<Option<usize>, ErrorView>(
                budget::over_budget(budget, w * h),
            ));
        }
    }
    let left: Option<usize> = budget::charge(budget, size)?;
    let mut target: DecodeTarget = DecodeTarget::wide(w, h, 1);
    let mut sub: PsdReader = PsdReader::new(c.data.as_slice(), None, None);
    sub.budget = left;
    assert(sub@ =~= decode::channel_reader(c.data@, left)) by {
        assert(c.data@.subrange(0, c.data@.len() as int) =~= c.data@);
    }
    let channels: [usize; 1] = [0];
    assert(channels@ =~= seq![0usize]);
    rle::decode_rle(&mut sub, &mut target.data, true, w, h, 8, 1, &channels, false)?;
    Ok(codec::bytes_to_u8_channel(&target.data, c.depth))
}

fn add_channel(data: &mut Vec<u8>, samples: &Vec<u8>, c: Rect, whole: Rect, offset: usize)
    requires
        c.valid(true),
        whole.valid(true),
        offset < 4,
    ensures
        final(data)@ == with_channel(old(data)@, samples@, c, whole, offset as int),
        final(data)@.len() == old(data)@.len(),
{
    proof {
        lemma_placed_len(
            data@,
            samples@,
            c.width() * c.height(),
            c.width(),
            whole.width(),
            c.left - whole.left,
            c.top - whole.top,
            offset as int,
        );
    }
    copy_channel_to_rgba(
        samples,
        data,
        (c.right - c.left) as usize,
        (c.bottom - c.top) as usize,
        (whole.right - whole.left) as usize,
        c.left as i64 - whole.left as i64,
        c.top as i64 - whole.top as i64,
        offset,
    );
}

fn step_pattern(
    data: &mut Vec<u8>,
    c: PatternChannel,
    whole: Rect,
    mode: ColorMode,
    colors: &Vec<PaletteColor>,
    ch: u64,
    budget: Option<usize>,
) -> (result: ReadResult<()>)
    requires
        c.rect.valid(true),
        whole.valid(true),
    ensures
        match pattern_step(
            old(data)@,
            c.deep_view(),
            whole,
            mode,
            colors@,
            ch as int,
            budget,
        ) {
            Ok(d) => result is Ok && final(data)@ == d && d.len() == old(data)@.len(),
            Err(e) => result matches Err(err) && err@ == e,
        },
{
    reveal(pattern_step);
    if (c.depth != 8 && c.depth != 16 && c.depth != 32) || c.depth2 as u32 != c.depth {
        return Err(
            ReadError::StrictViolation(
                text::owned_text("16bit pixel depth not supported for patterns"),
            ),
        );
    }
    if c.compression > 1 {
        return Err(
            ReadError::StrictViolation(text::owned_text("Invalid pattern compression mode")),
        );
    }
    let rect: Rect = c.rect;
    match mode {
        ColorMode::Indexed => {
            if c.compression == 1 {
                return Err(
                    ReadError::StrictViolation(
                        text::owned_text("Indexed pattern color mode not implemented"),
                    ),
                );
            }
            if ch < 1 {
                let samples: Vec<u8> = decode_pattern_samples(c, budget)?;
                add_channel(data, &look_up(&samples, colors, 0), rect, whole, 0);
                add_channel(data, &look_up(&samples, colors, 1), rect, whole, 1);
                add_channel(data, &look_up(&samples, colors, 2), rect, whole, 2);
            }
        },
        ColorMode::Rgb => {
            if ch < 3 {
                let samples: Vec<u8> = decode_pattern_samples(c, budget)?;
                add_channel(data, &samples, rect, whole, ch as usize);
            }
        },
        ColorMode::Grayscale => {
            if ch < 1 {
                let samples: Vec<u8> = decode_pattern_samples(c, budget)?;
                add_channel(data, &samples, rect, whole, 0);
                add_channel(data, &samples, rect, whole, 1);
                add_channel(data, &samples, rect, whole, 2);
            }
        },
        _ => {},
    }
    Ok(())
}

/// The pixels of a pattern after `n` of its places for channels, and how many of
/// them were taken.
pub open spec fn get_pattern_channels(
    r: ReaderState,
    data: Seq<u8>,
    n: int,
    whole: Rect,
    mode: ColorMode,
    colors: Seq<PaletteColor>,
) -> Parsed<(Seq<u8>, int)>
    decreases n,
{
    if n <= 0 {
        Ok(((data, 0), r))
    } else {
        match get_pattern_channels(r, data, n - 1, whole, mode, colors) {
            Err(e) => Err(e),
            Ok(((d, ch), r1)) => match get_pattern_channel(r1) {
                Err(e) => Err(e),
                Ok((None, r2)) => Ok(((d, ch), r2)),
                Ok((Some(c), r2)) => match pattern_step(d, c, whole, mode, colors, ch, r.budget) {
                    Err(e) => Err(e),
                    Ok(d) => Ok(((d, ch + 1), r2)),
                },
            },
        }
    }
}

proof fn lemma_pattern_channels_error(
    r: ReaderState,
    data: Seq<u8>,
    n: int,
    m: int,
    whole: Rect,
    mode: ColorMode,
    colors: Seq<PaletteColor>,
)
    requires
        0 <= n <= m,
        get_pattern_channels(r, data, n, whole, mode, colors) is Err,
    ensures
        get_pattern_channels(r, data, m, whole, mode, colors) == get_pattern_channels(
            r,
            data,
            n,
            whole,
            mode,
            colors,
        ),
    decreases m,
{
    if n < m {
        lemma_pattern_channels_error(r, data, n, m - 1, whole, mode, colors);
    }
}

/// Reading the channels of a pattern leaves everything but the cursor alone.
pub proof fn lemma_pattern_channels_state(
    r: ReaderState,
    data: Seq<u8>,
    n: int,
    whole: Rect,
    mode: ColorMode,
    colors: Seq<PaletteColor>,
)
    ensures
        get_pattern_channels(r, data, n, whole, mode, colors) matches Ok((_, after)) ==> after == r.at(
            after.offset,
        ),
    decreases n,
{
    reveal(get_pattern_channel);
    if n > 0 {
        lemma_pattern_channels_state(r, data, n - 1, whole, mode, colors);
    }
}

fn read_pattern_channels(
    reader: &mut PsdReader,
    data: &mut Vec<u8>,
    n: u64,
    whole: Rect,
    mode: ColorMode,
    colors: &Vec<PaletteColor>,
) -> (result: ReadResult<()>)
    requires
        whole.valid(true),
    ensures
        match get_pattern_channels(old(reader)@, old(data)@, n as int, whole, mode, colors@) {
            Ok(((d, _), state)) => result is Ok && final(data)@ == d && final(reader)@ == state
                && final(reader)@.same_source(old(reader)@) && d.len() == old(data)@.len(),
            Err(e) => result matches Err(err) && err@ == e && final(reader)@.same_source(
                old(reader)@,
            ),
        },
{
    let ghost start = reader@;
    let ghost given = data@;
    let budget: Option<usize> = reader.budget;
    let mut i: u64 = 0;
    let mut ch: u64 = 0;
    while i < n
        invariant
            i <= n,
            ch <= i,
            start == old(reader)@,
            given == old(data)@,
            budget == start.budget,
            whole.valid(true),
            data@.len() == given.len(),
            reader@.same_source(start),
            reader@ == start.at(reader@.offset),
            get_pattern_channels(start, given, i as int, whole, mode, colors@) == Ok::<
                ((Seq<u8>, int), ReaderState),
                ErrorView,
            >(((data@, ch as int), reader@)),
        decreases n - i,
    {
        proof {
            lemma_pattern_channels_state(start, given, i + 1, whole, mode, colors@);
            if get_pattern_channels(start, given, i + 1, whole, mode, colors@) is Err {
                lemma_pattern_channels_error(start, given, i + 1, n as int, whole, mode, colors@);
            }
        }
        let channel: Option<PatternChannel> = read_pattern_channel(reader)?;
        match channel {
            None => {},
            Some(c) => {
                step_pattern(data, c, whole, mode, colors, ch, budget)?;
                ch += 1;
            },
        }
        i += 1;
    }
    Ok(())
}

/// The 256 colours at `at`, one after the other.
pub open spec fn triples_at(s: Seq<u8>, at: int) -> Seq<PaletteColor> {
    Seq::new(
        256,
        |i: int| PaletteColor { r: s[at + 3 * i], g: s[at + 3 * i + 1], b: s[at + 3 * i + 2] },
    )
}

/// The palette of an indexed pattern; other patterns have none.
pub open spec fn get_pattern_palette(r: ReaderState, mode: ColorMode) -> Parsed<
    Seq<PaletteColor>,
> {
    if mode != ColorMode::Indexed {
        Ok((Seq::empty(), r))
    } else if r.has(768) {
        Ok((triples_at(r.buffer, r.offset), r.skipped(772)))
    } else {
        Err(ErrorView::UnexpectedEndOfBuffer)
    }
}

/// The pixels of a pattern and their rectangle.
#[verifier::opaque]
pub open spec fn get_pattern_image(
    r: ReaderState,
    mode: ColorMode,
    colors: Seq<PaletteColor>,
) -> Parsed<(Rect, Seq<u8>)> {
    match reader::get_u32(r) {
        Err(e) => Err(e),
        Ok((version, r1)) => if version != 3 {
            Err(
                ErrorView::StrictViolation(
                    "Invalid pattern VMAL version: "@ + text::decimal(version as int),
                ),
            )
        } else {
            match reader::get_u32(r1) {
                Err(e) => Err(e),
                Ok((_, r2)) => match get_rect(r2) {
                    Err(e) => Err(e),
                    Ok((rect, r3)) => match reader::get_u32(r3) {
                        Err(e) => Err(e),
                        Ok((count, r4)) => {
                            let size = rect.width() * rect.height() * 4;
                            match budget::charged(r4.budget, size) {
                                Err(e) => Err(e),
                                Ok(left) => match get_pattern_channels(
                                    ReaderState { budget: left, ..r4 },
                                    pixels::opaque_black(size),
                                    count + 2,
                                    rect,
                                    mode,
                                    colors,
                                ) {
                                    Err(e) => Err(e),
                                    Ok(((data, _), r5)) => Ok(((rect, data), r5)),
                                },
                            }
                        },
                    },
                },
            }
        },
    }
}

/// The rest of a pattern, behind its colour mode and its origin.
pub open spec fn get_named_image(r: ReaderState, mode: ColorMode, x: i16, y: i16) -> Parsed<
    PatternView,
> {
    match reader::get_unicode_string(r) {
        Err(e) => Err(e),
        Ok((name, r1)) => match reader::get_pascal_string(r1, 1) {
            Err(e) => Err(e),
            Ok((id, r2)) => match get_pattern_palette(r2, mode) {
                Err(e) => Err(e),
                Ok((colors, r3)) => match get_pattern_image(r3, mode, colors) {
                    Err(e) => Err(e),
                    Ok(((rect, data), r4)) => Ok(
                        (
                            PatternView {
                                name,
                                id,
                                x,
                                y,
                                bounds: PatternBounds {
                                    x: rect.left,
                                    y: rect.top,
                                    w: rect.width() as u32,
                                    h: rect.height() as u32,
                                },
                                data,
                            },
                            r4,
                        ),
                    ),
                },
            },
        },
    }
}

/// The inside of a pattern, behind its length.
pub open spec fn get_pattern_body(r: ReaderState) -> Parsed<PatternView> {
    match reader::get_u32(r) {
        Err(e) => Err(e),
        Ok((version, r1)) => if version != 1 {
            Err(
                ErrorView::StrictViolation(
                    "Invalid pattern version: "@ + text::decimal(version as int),
                ),
            )
        } else {
            match reader::get_u32(r1) {
                Err(e) => Err(e),
                Ok((code, r2)) => match reader::get_i16(r2) {
                    Err(e) => Err(e),
                    Ok((x, r3)) => match reader::get_i16(r3) {
                        Err(e) => Err(e),
                        Ok((y, r4)) => match pattern_mode(code) {
                            None => Err(
                                ErrorView::StrictViolation(
                                    "Unsupported pattern color mode: "@ + text::decimal(
                                        code as int,
                                    ),
                                ),
                            ),
                            Some(mode) => get_named_image(r4, mode, x, y),
                        },
                    },
                },
            }
        },
    }
}

/// The pattern at the cursor; behind it the reader is at the end that its length
/// states, rounded up to a multiple of four.
pub open spec fn get_pattern(r: ReaderState) -> Parsed<PatternView> {
    match reader::get_u32(r) {
        Err(e) => Err(e),
        Ok((length, r1)) => match get_pattern_body(r1) {
            Err(e) => Err(e),
            Ok((p, r2)) => Ok(
                (
                    p,
                    r2.at(
                        bytes::clamp_offset(
                            r1.offset + length + bytes::padding(length as int, 4),
                        ),
                    ),
                ),
            ),
        },
    }
}

fn triples_from(buffer: &[u8], at: usize) -> (colors: Vec<PaletteColor>)
    requires
        at + 768 <= buffer@.len(),
    ensures
        colors@ == triples_at(buffer@, at as int),
{
    let size: usize = buffer.len();
    let mut colors: Vec<PaletteColor> = Vec::new();
    let mut i: usize = 0;
    while i < 256
        invariant
            i <= 256,
            size == buffer@.len(),
            at + 768 <= size,
            colors@ == triples_at(buffer@, at as int).take(i as int),
        decreases 256 - i,
    {
        let color: PaletteColor = PaletteColor {
            r: buffer[at + 3 * i],
            g: buffer[at + 3 * i + 1],
            b: buffer[at + 3 * i + 2],
        };
        colors.push(color);
        i += 1;
        assert(colors@ =~= triples_at(buffer@, at as int).take(i as int));
    }
    assert(colors@ =~= triples_at(buffer@, at as int));
    colors
}

fn read_pattern_palette(reader: &mut PsdReader, mode: ColorMode) -> (result: ReadResult<
    Vec<PaletteColor>,
>)
    ensures
        match get_pattern_palette(old(reader)@, mode) {
            Ok((colors, state)) => result matches Ok(c) && c@ == colors && final(reader)@ == state
                && final(reader)@.same_source(old(reader)@),
            Err(e) => result matches Err(err) && err@ == e && final(reader)@.same_source(
                old(reader)@,
            ),
        },
{
    if matches!(mode, ColorMode::Indexed) {
        let size: usize = reader.buffer.len();
        if size < 768 || reader.offset > size - 768 {
            return Err(ReadError::UnexpectedEndOfBuffer);
        }
        let colors: Vec<PaletteColor> = triples_from(reader.buffer, reader.offset);
        reader::skip_bytes(reader, 772);
        return Ok(colors);
    }
    let none: Vec<PaletteColor> = Vec::new();
    assert(none@ =~= Seq::<PaletteColor>::empty());
    Ok(none)
}

fn read_pattern_image(
    reader: &mut PsdReader,
    mode: ColorMode,
    colors: &Vec<PaletteColor>,
) -> (result: ReadResult<(Rect, Vec<u8>)>)
    ensures
        match get_pattern_image(old(reader)@, mode, colors@) {
            Ok(((rect, data), state)) => result matches Ok((c, d)) && c == rect && d@ == data
                && final(reader)@ == state && final(reader)@.same_source(old(reader)@)
                && rect.valid(true),
            Err(e) => result matches Err(err) && err@ == e && final(reader)@.same_source(
                old(reader)@,
            ),
        },
{
    reveal(get_pattern_image);
    let version: u32 = reader::read_uint32(reader)?;
    if version != 3 {
        return Err(
            ReadError::StrictViolation(
                text::numbered("Invalid pattern VMAL version: ", version as u64),
            ),
        );
    }
    reader::read_uint32(reader)?;
    let rect: Rect = read_rect(reader)?;
    let count: u32 = reader::read_uint32(reader)?;
    let width: usize = (rect.right - rect.left) as usize;
    let height: usize = (rect.bottom - rect.top) as usize;
    let size: Option<usize> = pixels::bitmap_size(width, height, 4);
    proof {
        if size is None {
            assert(budget::charged(reader@.budget, width * height * 4) == Err::<
                Option<usize>,
                ErrorView,
            >(budget::over_budget(reader@.budget, width * height * 4)));
        }
    }
    reader.budget = budget::charge(reader.budget, size)?;
    let mut target: DecodeTarget = DecodeTarget::rgba(width, height);
    pixels::fill_opaque_black(&mut target.data);
    read_pattern_channels(reader, &mut target.data, count as u64 + 2, rect, mode, colors)?;
    Ok((rect, target.data))
}

fn read_named_image(reader: &mut PsdReader, mode: ColorMode, x: i16, y: i16) -> (result: ReadResult<
    PatternInfo,
>)
    ensures
        reader::reads(
            result,
            old(reader)@,
            final(reader)@,
            get_named_image(old(reader)@, mode, x, y),
        ),
{
    let name: String = reader::read_unicode_string(reader)?;
    let id: String = reader::read_pascal_string(reader, 1)?;
    let colors: Vec<PaletteColor> = read_pattern_palette(reader, mode)?;
    let (rect, data): (Rect, Vec<u8>) = read_pattern_image(reader, mode, &colors)?;
    let bounds: PatternBounds = PatternBounds {
        x: rect.left,
        y: rect.top,
        w: rect.right - rect.left,
        h: rect.bottom - rect.top,
    };
    Ok(PatternInfo { name, id, x, y, bounds, data })
}

fn read_pattern_body(reader: &mut PsdReader) -> (result: ReadResult<PatternInfo>)
    ensures
        reader::reads(result, old(reader)@, final(reader)@, get_pattern_body(old(reader)@)),
{
    let version: u32 = reader::read_uint32(reader)?;
    if version != 1 {
        return Err(
            ReadError::StrictViolation(text::numbered("Invalid pattern version: ", version as u64)),
        );
    }
    let code: u32 = reader::read_uint32(reader)?;
    let x: i16 = reader::read_int16(reader)?;
    let y: i16 = reader::read_int16(reader)?;
    let mode: ColorMode = match code % 0x1_0000 {
        1 => ColorMode::Grayscale,
        2 => ColorMode::Indexed,
        3 => ColorMode::Rgb,
        _ => {
            return Err(
                ReadError::StrictViolation(
                    text::numbered("Unsupported pattern color mode: ", code as u64),
                ),
            );
        },
    };
    read_named_image(reader, mode, x, y)
}

/// Reads a pattern.
pub fn read_pattern(reader: &mut PsdReader) -> (result: ReadResult<PatternInfo>)
    ensures
        reader::reads(result, old(reader)@, final(reader)@, get_pattern(old(reader)@)),
{
    let length: u32 = reader::read_uint32(reader)?;
    let padded: u64 = length as u64 + bytes::padding_for(length as usize, 4) as u64;
    let end: usize = if padded > usize::MAX as u64 {
        usize::MAX
    } else {
        reader.offset.saturating_add(padded as usize)
    };
    let pattern: PatternInfo = read_pattern_body(reader)?;
    reader.offset = end;
    Ok(pattern)
}

} // verus!
