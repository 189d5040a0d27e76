//! What the bytes of a pattern say: its rectangle, its channels and their pixels.

use vstd::arithmetic::div_mod::lemma_fundamental_div_mod;
use vstd::arithmetic::div_mod::lemma_fundamental_div_mod_converse;
use vstd::prelude::*;

use crate::bytes;
use crate::codec;
use crate::error::ErrorView;
use crate::number_laws;
use crate::number_laws::{moved_to, number16, number32, signed16};
use crate::pattern;
use crate::pattern::{PatternChannelView, Rect};
use crate::pattern_writer;
use crate::pixels;
use crate::psd::{ColorMode, PaletteColor, PatternView};
use crate::reader;
use crate::reader::ReaderState;
use crate::sample_laws;

verus! {

broadcast use crate::bytes::group_bytes;

/// The rectangle of a pattern is its top, left, bottom and right edge. It is refused where
/// it is turned inside out or a side is longer than the document may be.
pub proof fn law_rect_read(r: ReaderState)
    requires
        0 <= r.offset,
        r.offset + 16 <= r.buffer.len(),
    ensures
        ({
            let o = r.offset;
            let s = r.buffer;
            let width = number32(s, o + 12) - number32(s, o + 4);
            let height = number32(s, o + 8) - number32(s, o);
            let most: int = if r.large {
                300000
            } else {
                30000
            };
            match pattern::get_rect(r) {
                Ok((found, after)) => {
                    &&& 0 <= width <= most && 0 <= height <= most
                    &&& found.top == number32(s, o)
                    &&& found.left == number32(s, o + 4)
                    &&& found.bottom == number32(s, o + 8)
                    &&& found.right == number32(s, o + 12)
                    &&& moved_to(r, after, o + 16)
                },
                Err(e) => !(0 <= width <= most && 0 <= height <= most) && e is InvalidBoxSize,
            }
        }),
{
    number_laws::lemma_at(r.buffer, r.offset);
    number_laws::lemma_at(r.buffer, r.offset + 4);
    number_laws::lemma_at(r.buffer, r.offset + 8);
    number_laws::lemma_at(r.buffer, r.offset + 12);
}

/// The sample in a column and a row of a channel goes to the pixel that lies as far right
/// and down as the channel does in the pattern; all else stays as it was.
pub proof fn law_channel_placed(
    data: Seq<u8>,
    samples: Seq<u8>,
    w: int,
    h: int,
    width: int,
    ox: int,
    oy: int,
    offset: int,
)
    requires
        0 < w,
        0 <= h,
        samples.len() >= w * h,
        0 <= ox,
        ox + w <= width,
        0 <= oy,
        0 <= offset < 4,
    ensures
        ({
            let after = pattern::placed(data, samples, w * h, w, width, ox, oy, offset);
            &&& after.len() == data.len()
            &&& forall|x: int, y: int|
                #![trigger after[4 * (width * (oy + y) + (ox + x)) + offset]]
                0 <= x < w && 0 <= y < h && 4 * (width * (oy + y) + (ox + x)) + offset < data.len()
                    ==> after[4 * (width * (oy + y) + (ox + x)) + offset] == samples[w * y + x]
            &&& forall|i: int|
                0 <= i < data.len() && !(i % 4 == offset && ox <= (i / 4) % width < ox + w && oy
                    <= (i / 4) / width < oy + h) ==> #[trigger] after[i] == data[i]
        }),
{
    let n = w * h;
    let after = pattern::placed(data, samples, n, w, width, ox, oy, offset);
    assert(0 <= n) by (nonlinear_arith)
        requires
            n == w * h,
            0 < w,
            0 <= h,
    ;
    lemma_placed(data, samples, n, w, h, width, ox, oy, offset);
    assert forall|x: int, y: int|
        #![trigger after[4 * (width * (oy + y) + (ox + x)) + offset]]
        0 <= x < w && 0 <= y < h && 4 * (width * (oy + y) + (ox + x)) + offset < data.len()
            implies after[4 * (width * (oy + y) + (ox + x)) + offset] == samples[w * y + x] by {
        let k = w * y + x;
        lemma_step(w, h, x, y);
        assert((y + oy) * width == width * (oy + y)) by (nonlinear_arith);
        assert(0 <= width * (oy + y)) by (nonlinear_arith)
            requires
                0 < width,
                0 <= oy + y,
        ;
        assert(pattern::place_of(k, w, width, ox, oy) == 4 * (width * (oy + y) + (ox + x)));
    }
}

proof fn lemma_step(w: int, h: int, x: int, y: int)
    requires
        0 <= x < w,
        0 <= y < h,
    ensures
        (w * y + x) % w == x,
        (w * y + x) / w == y,
        0 <= w * y + x < w * h,
{
    assert(y * w + x == w * y + x) by (nonlinear_arith);
    lemma_fundamental_div_mod_converse(w * y + x, w, y, x);
    assert(0 <= w * y + x < w * h) by (nonlinear_arith)
        requires
            0 <= x < w,
            0 <= y < h,
    ;
}

/// Where a sample goes, and from where one could have come.
proof fn lemma_place(k: int, w: int, h: int, width: int, ox: int, oy: int)
    requires
        0 < w,
        0 <= k < w * h,
        0 <= ox,
        ox + w <= width,
        0 <= oy,
    ensures
        ({
            let p = pattern::place_of(k, w, width, ox, oy) / 4;
            &&& pattern::place_of(k, w, width, ox, oy) == 4 * p
            &&& 0 <= p
            &&& p % width == ox + k % w
            &&& p / width == oy + k / w
            &&& 0 <= k % w < w
            &&& 0 <= k / w < h
            &&& k == w * (k / w) + k % w
        }),
{
    lemma_fundamental_div_mod(k, w);
    let x = k % w;
    let y = k / w;
    assert(0 <= y < h) by (nonlinear_arith)
        requires
            k == w * y + x,
            0 <= x < w,
            0 <= k < w * h,
    ;
    let p = ox + x + (y + oy) * width;
    lemma_fundamental_div_mod_converse(p, width, y + oy, ox + x);
    assert(0 <= (y + oy) * width) by (nonlinear_arith)
        requires
            0 <= y + oy,
            0 < width,
    ;
}

proof fn lemma_placed(
    data: Seq<u8>,
    samples: Seq<u8>,
    n: int,
    w: int,
    h: int,
    width: int,
    ox: int,
    oy: int,
    offset: int,
)
    requires
        0 < w,
        0 <= n <= w * h,
        samples.len() >= w * h,
        0 <= ox,
        ox + w <= width,
        0 <= oy,
        0 <= offset < 4,
    ensures
        ({
            let after = pattern::placed(data, samples, n, w, width, ox, oy, offset);
            &&& after.len() == data.len()
            &&& forall|k: int|
                0 <= k < n && #[trigger] pattern::place_of(k, w, width, ox, oy) + offset
                    < data.len() ==> after[pattern::place_of(k, w, width, ox, oy) + offset]
                    == samples[k]
            &&& forall|i: int|
                0 <= i < data.len() && !(i % 4 == offset && ox <= (i / 4) % width < ox + w && oy
                    <= (i / 4) / width < oy + h) ==> #[trigger] after[i] == data[i]
        }),
    decreases n,
{
    if n > 0 {
        lemma_placed(data, samples, n - 1, w, h, width, ox, oy, offset);
        let before = pattern::placed(data, samples, n - 1, w, width, ox, oy, offset);
        let after = pattern::placed(data, samples, n, w, width, ox, oy, offset);
        let place = pattern::place_of(n - 1, w, width, ox, oy);
        lemma_place(n - 1, w, h, width, ox, oy);
        assert forall|k: int|
            0 <= k < n && #[trigger] pattern::place_of(k, w, width, ox, oy) + offset
                < data.len() implies after[pattern::place_of(k, w, width, ox, oy) + offset]
            == samples[k] by {
            lemma_place(k, w, h, width, ox, oy);
            if k < n - 1 && pattern::place_of(k, w, width, ox, oy) == place {
                assert(k % w == (n - 1) % w);
                assert(k / w == (n - 1) / w);
                assert(false);
            }
        }
        assert((place + offset) / 4 == place / 4 && (place + offset) % 4 == offset);
    }
}

/// A channel of a pattern that is there: behind a number other than zero come its length,
/// its depth, its rectangle, its depth again, the way it is stored and as many bytes as
/// its length says, less the 23 between them.
pub proof fn law_pattern_channel_read(r: ReaderState)
    requires
        0 <= r.offset,
        r.offset + 31 <= r.buffer.len(),
        r.buffer.len() <= usize::MAX,
    ensures
        ({
            let o = r.offset;
            let s = r.buffer;
            let length = number32(s, o + 4);
            let inner = ReaderState { offset: o + 12, ..r };
            &&& number32(s, o) == 0 ==> (pattern::get_pattern_channel(r) matches Ok((found, after))
                && found is None && moved_to(r, after, o + 4))
            &&& number32(s, o) != 0 && 23 <= length && o + 31 + (length - 23) <= s.len() ==> match (
                pattern::get_rect(inner),
                pattern::get_pattern_channel(r),
            ) {
                (Ok((rect, _)), Ok((Some(found), after))) => {
                    &&& found.rect == rect
                    &&& found.depth == number32(s, o + 8)
                    &&& found.depth2 == number16(s, o + 28)
                    &&& found.compression == s[o + 30]
                    &&& found.data == s.subrange(o + 31, o + 8 + length)
                    &&& moved_to(r, after, o + 8 + length)
                },
                (Err(e), Err(f)) => e == f,
                _ => false,
            }
        }),
{
    reveal(pattern::get_pattern_channel);
    let o = r.offset;
    let s = r.buffer;
    number_laws::lemma_at(s, o);
    number_laws::lemma_at(s, o + 4);
    number_laws::lemma_at(s, o + 8);
    number_laws::lemma_at(s, o + 28);
    let inner = ReaderState { offset: o + 12, ..r };
    law_rect_read(inner);
    assert(r.at(o + 4).at(o + 8).at(o + 12) == inner);
}

/// The bytes that the stored samples of an uncompressed channel come to: one for each, the
/// upper half of each of 16 bits, and the byte of each of 32 bits.
pub proof fn law_pattern_samples(c: PatternChannelView, budget: Option<usize>)
    requires
        c.compression == 0,
        pattern::supported_depth(c.depth),
    ensures
        pattern::pattern_samples(c, budget) matches Ok(found) && {
            &&& found.len() == c.data.len() as int / sample_laws::sample_size(c.depth)
            &&& forall|k: int| 0 <= k < found.len() ==> #[trigger] found[k]
                == sample_laws::sample_byte(c.data, c.depth, k)
        },
{
    let found = codec::byte_channel(c.data, c.depth);
    assert forall|k: int| 0 <= k < found.len() implies #[trigger] found[k]
        == sample_laws::sample_byte(c.data, c.depth, k) by {
        number_laws::lemma_at(c.data, 4 * k);
    }
}

/// The pixels that a sample comes to: in a pattern of red, green and blue the sample of
/// its own channel, in a gray one all three, in an indexed one the three of the colour
/// that the sample picks from the palette. Further channels change nothing.
pub proof fn law_pattern_step(
    data: Seq<u8>,
    c: PatternChannelView,
    whole: Rect,
    mode: ColorMode,
    colors: Seq<PaletteColor>,
    ch: int,
    budget: Option<usize>,
    samples: Seq<u8>,
)
    requires
        c.depth == c.depth2,
        pattern::supported_depth(c.depth),
        c.compression == 0 || (c.compression == 1 && mode != ColorMode::Indexed),
        pattern::pattern_samples(c, budget) == Ok::<_, ErrorView>(samples),
        samples.len() >= c.rect.width() * c.rect.height(),
        mode == ColorMode::Rgb || mode == ColorMode::Grayscale || mode == ColorMode::Indexed,
        whole.left <= c.rect.left < c.rect.right <= whole.right,
        whole.top <= c.rect.top <= c.rect.bottom <= whole.bottom,
        data.len() == 4 * ((whole.right - whole.left) * (whole.bottom - whole.top)),
        0 <= ch,
    ensures
        pattern::pattern_step(data, c, whole, mode, colors, ch, budget) matches Ok(after) && {
            let w = c.rect.right - c.rect.left;
            let h = c.rect.bottom - c.rect.top;
            let width = whole.right - whole.left;
            &&& after.len() == data.len()
            &&& forall|x: int, y: int, k: int|
                #![trigger after[4 * (width * (c.rect.top - whole.top + y) + (c.rect.left
                    - whole.left + x)) + k]]
                0 <= x < w && 0 <= y < h && 0 <= k < 4 ==> {
                    let i = 4 * (width * (c.rect.top - whole.top + y) + (c.rect.left - whole.left
                        + x)) + k;
                    let v = samples[w * y + x];
                    after[i] == (if mode == ColorMode::Rgb && k == ch && k < 3 {
                        v
                    } else if mode == ColorMode::Grayscale && ch == 0 && k < 3 {
                        v
                    } else if mode == ColorMode::Indexed && ch == 0 && k < 3 {
                        if v >= colors.len() {
                            0
                        } else if k == 0 {
                            colors[v as int].r
                        } else if k == 1 {
                            colors[v as int].g
                        } else {
                            colors[v as int].b
                        }
                    } else {
                        data[i]
                    })
                }
        },
{
    reveal(pattern::pattern_step);
    let w = c.rect.width();
    let h = c.rect.height();
    let width = whole.width();
    let ox = c.rect.left - whole.left;
    let oy = c.rect.top - whole.top;
    let after = pattern::pattern_step(data, c, whole, mode, colors, ch, budget)->Ok_0;
    let indexed = mode == ColorMode::Indexed;
    let first = if indexed {
        pattern::palette_plane(samples, colors, 0)
    } else {
        samples
    };
    let second = if indexed {
        pattern::palette_plane(samples, colors, 1)
    } else {
        samples
    };
    let third = if indexed {
        pattern::palette_plane(samples, colors, 2)
    } else {
        samples
    };
    let red = pattern::placed(data, first, w * h, w, width, ox, oy, 0);
    let green = pattern::placed(red, second, w * h, w, width, ox, oy, 1);
    let blue = pattern::placed(green, third, w * h, w, width, ox, oy, 2);
    law_channel_placed(data, first, w, h, width, ox, oy, 0);
    law_channel_placed(red, second, w, h, width, ox, oy, 1);
    law_channel_placed(green, third, w, h, width, ox, oy, 2);
    if mode == ColorMode::Rgb && ch < 3 {
        law_channel_placed(data, samples, w, h, width, ox, oy, ch);
    }
    assert forall|x: int, y: int, k: int|
        #![trigger after[4 * (width * (oy + y) + (ox + x)) + k]]
        0 <= x < w && 0 <= y < h && 0 <= k < 4 implies {
        let i = 4 * (width * (oy + y) + (ox + x)) + k;
        let v = samples[w * y + x];
        after[i] == (if mode == ColorMode::Rgb && k == ch && k < 3 {
            v
        } else if mode == ColorMode::Grayscale && ch == 0 && k < 3 {
            v
        } else if indexed && ch == 0 && k < 3 {
            if v >= colors.len() {
                0
            } else if k == 0 {
                colors[v as int].r
            } else if k == 1 {
                colors[v as int].g
            } else {
                colors[v as int].b
            }
        } else {
            data[i]
        })
    } by {
        let p = width * (oy + y) + (ox + x);
        let i = 4 * p + k;
        lemma_step(w, h, x, y);
        lemma_step(width, whole.height(), ox + x, oy + y);
        assert(i % 4 == k && i / 4 == p);
        assert(0 <= i < data.len());
        if k < 3 {
            assert(4 * (width * (oy + y) + (ox + x)) + k == i);
            if k == 0 {
                assert(red[4 * (width * (oy + y) + (ox + x)) + 0] == first[w * y + x]);
            } else if k == 1 {
                assert(green[4 * (width * (oy + y) + (ox + x)) + 1] == second[w * y + x]);
            } else {
                assert(blue[4 * (width * (oy + y) + (ox + x)) + 2] == third[w * y + x]);
            }
        }
    }
}

/// The palette of an indexed pattern is 256 colours of a red, a green and a blue byte each.
pub proof fn law_pattern_palette(r: ReaderState)
    requires
        0 <= r.offset,
        r.offset + 772 <= r.buffer.len(),
        r.buffer.len() <= usize::MAX,
    ensures
        pattern::get_pattern_palette(r, ColorMode::Indexed) matches Ok((found, after)) && {
            &&& found.len() == 256
            &&& forall|i: int|
                0 <= i < 256 ==> (#[trigger] found[i]).r == r.buffer[r.offset + 3 * i]
                    && found[i].g == r.buffer[r.offset + 3 * i + 1] && found[i].b
                    == r.buffer[r.offset + 3 * i + 2]
            &&& moved_to(r, after, r.offset + 772)
        },
{
}

/// A pattern begins with its version, the number of its colour mode, 1 for gray, 2 for
/// indexed and 3 for red, green and blue, and the two coordinates of its origin. Where its
/// name, its identifier and its pixels are read, they are in it as they are, and its
/// rectangle is that of its pixels.
pub proof fn law_pattern_body(r: ReaderState)
    requires
        0 <= r.offset,
        r.offset + 12 <= r.buffer.len(),
    ensures
        ({
            let o = r.offset;
            let s = r.buffer;
            let code = number32(s, o + 4) % 65536;
            match pattern::get_pattern_body(r) {
                Ok((found, _)) => {
                    &&& number32(s, o) == 1 && 1 <= code <= 3
                    &&& found.x == signed16(s, o + 8)
                    &&& found.y == signed16(s, o + 10)
                    &&& body_read(
                        ReaderState { offset: o + 12, ..r },
                        if code == 1 {
                            ColorMode::Grayscale
                        } else if code == 2 {
                            ColorMode::Indexed
                        } else {
                            ColorMode::Rgb
                        },
                        found,
                    )
                },
                Err(_) => true,
            }
        }),
        !(number32(r.buffer, r.offset) == 1 && 1 <= number32(r.buffer, r.offset + 4) % 65536 <= 3)
            ==> (pattern::get_pattern_body(r) matches Err(e) && e is StrictViolation),
{
    let o = r.offset;
    let s = r.buffer;
    number_laws::lemma_at(s, o);
    number_laws::lemma_at(s, o + 4);
    number_laws::lemma_at(s, o + 8);
    number_laws::lemma_at(s, o + 10);
    reveal(pattern::get_pattern_image);
    assert(r.at(o + 4).at(o + 8).at(o + 10).at(o + 12) == (ReaderState { offset: o + 12, ..r }));
}

/// A reader, the pixels of a pattern so far, and how many channels they are from.
pub struct Step {
    pub state: ReaderState,
    pub data: Seq<u8>,
    pub taken: int,
}

/// One place for a channel leads from one step to the next: an empty one changes nothing,
/// another adds the channel to the pixels.
pub open spec fn leads_to(
    a: Step,
    b: Step,
    whole: Rect,
    mode: ColorMode,
    colors: Seq<PaletteColor>,
    budget: Option<usize>,
) -> bool {
    match pattern::get_pattern_channel(a.state) {
        Ok((None, after)) => b == (Step { state: after, ..a }),
        Ok((Some(c), after)) => {
            &&& b.state == after
            &&& b.taken == a.taken + 1
            &&& pattern::pattern_step(a.data, c, whole, mode, colors, a.taken, budget) == Ok::<
                _,
                ErrorView,
            >(b.data)
        },
        Err(_) => false,
    }
}

/// The places for channels are taken one after the other.
pub proof fn law_places_in_order(
    steps: Seq<Step>,
    whole: Rect,
    mode: ColorMode,
    colors: Seq<PaletteColor>,
)
    requires
        steps.len() > 0,
        steps[0].taken == 0,
        forall|i: int|
            0 < i < steps.len() ==> leads_to(
                steps[i - 1],
                #[trigger] steps[i],
                whole,
                mode,
                colors,
                steps[0].state.budget,
            ),
    ensures
        pattern::get_pattern_channels(
            steps[0].state,
            steps[0].data,
            steps.len() - 1,
            whole,
            mode,
            colors,
        ) == Ok::<_, ErrorView>(((steps.last().data, steps.last().taken), steps.last().state)),
    decreases steps.len(),
{
    if steps.len() > 1 {
        let first = steps.drop_last();
        assert forall|i: int| 0 < i < first.len() implies leads_to(
            first[i - 1],
            #[trigger] first[i],
            whole,
            mode,
            colors,
            first[0].state.budget,
        ) by {
            assert(first[i] == steps[i]);
            assert(first[i - 1] == steps[i - 1]);
        }
        law_places_in_order(first, whole, mode, colors);
        assert(leads_to(
            steps[steps.len() - 2],
            steps[steps.len() - 1],
            whole,
            mode,
            colors,
            steps[0].state.budget,
        ));
    }
}

/// The pixels of a pattern begin with the number 3 and a length; their rectangle and the
/// number of their channels follow, and two places more than that for channels. Before the
/// first of these every pixel is black and opaque.
pub proof fn law_pattern_image(r: ReaderState, mode: ColorMode, colors: Seq<PaletteColor>)
    requires
        0 <= r.offset,
        r.offset + 28 <= r.buffer.len(),
        r.buffer.len() <= usize::MAX,
        r.budget is None,
        number32(r.buffer, r.offset) == 3,
        pattern::get_rect(ReaderState { offset: r.offset + 8, ..r }) is Ok,
        4 * ((number32(r.buffer, r.offset + 20) - number32(r.buffer, r.offset + 12)) * (number32(
            r.buffer,
            r.offset + 16,
        ) - number32(r.buffer, r.offset + 8))) <= usize::MAX,
    ensures
        exists|black: Seq<u8>|
            {
                &&& #[trigger] black.len() == 4 * ((number32(r.buffer, r.offset + 20) - number32(
                    r.buffer,
                    r.offset + 12,
                )) * (number32(r.buffer, r.offset + 16) - number32(r.buffer, r.offset + 8)))
                &&& forall|i: int|
                    0 <= i < black.len() ==> #[trigger] black[i] == (if i % 4 == 3 {
                        255int
                    } else {
                        0int
                    })
                &&& image_read(r, mode, colors, black)
            },
{
    reveal(pattern::get_pattern_image);
    let o = r.offset;
    let s = r.buffer;
    number_laws::lemma_at(s, o);
    number_laws::lemma_at(s, o + 4);
    number_laws::lemma_at(s, o + 24);
    law_rect_read(ReaderState { offset: o + 8, ..r });
    let (rect, _) = pattern::get_rect(ReaderState { offset: o + 8, ..r })->Ok_0;
    let width = rect.width();
    let height = rect.height();
    let size = width * height * 4;
    let black = pixels::opaque_black(size);
    assert(0 <= width * height) by (nonlinear_arith)
        requires
            0 <= width,
            0 <= height,
    ;
    assert(r.at(o + 4).at(o + 8) == (ReaderState { offset: o + 8, ..r }));
    assert(r.at(o + 24).at(o + 28) == (ReaderState { offset: o + 28, ..r }));
    assert(black.len() == size);
    assert(image_read(r, mode, colors, black));
}

/// What the places for channels add to black pixels is what is read as the pixels of a
/// pattern.
pub open spec fn image_read(
    r: ReaderState,
    mode: ColorMode,
    colors: Seq<PaletteColor>,
    black: Seq<u8>,
) -> bool {
    let o = r.offset;
    let rect = Rect {
        top: number32(r.buffer, o + 8) as u32,
        left: number32(r.buffer, o + 12) as u32,
        bottom: number32(r.buffer, o + 16) as u32,
        right: number32(r.buffer, o + 20) as u32,
    };
    match (
        pattern::get_pattern_channels(
            ReaderState { offset: o + 28, ..r },
            black,
            number32(r.buffer, o + 24) + 2,
            rect,
            mode,
            colors,
        ),
        pattern::get_pattern_image(r, mode, colors),
    ) {
        (Ok(((data, _), after)), Ok((found, end))) => found == (rect, data) && end == after,
        (Err(e), Err(f)) => e == f,
        _ => false,
    }
}

/// The name, the identifier, the palette and the pixels at the cursor are those of a
/// pattern.
pub open spec fn body_read(r: ReaderState, mode: ColorMode, found: PatternView) -> bool {
    reader::get_unicode_string(r) matches Ok((name, r1)) && {
        &&& found.name == name
        &&& reader::get_pascal_string(r1, 1) matches Ok((id, r2)) && {
            &&& found.id == id
            &&& pattern::get_pattern_palette(r2, mode) matches Ok((colors, r3)) && {
                pattern::get_pattern_image(r3, mode, colors) matches Ok(((rect, data), _)) && {
                    &&& found.bounds.x == rect.left
                    &&& found.bounds.y == rect.top
                    &&& found.bounds.w == rect.right - rect.left
                    &&& found.bounds.h == rect.bottom - rect.top
                    &&& found.data == data
                }
            }
        }
    }
}

/// The length of a pattern stands before it, and the next thing is behind as many bytes,
/// rounded up to a multiple of four, wherever its own parts ended.
pub proof fn law_pattern_read(r: ReaderState)
    requires
        0 <= r.offset,
        r.offset + 4 <= r.buffer.len(),
        r.offset + 4 + number32(r.buffer, r.offset) + 3 <= usize::MAX,
    ensures
        match (
            pattern::get_pattern(r),
            pattern::get_pattern_body(ReaderState { offset: r.offset + 4, ..r }),
        ) {
            (Ok((found, after)), Ok((inner, end))) => {
                let length = number32(r.buffer, r.offset);
                &&& found == inner
                &&& moved_to(end, after, after.offset)
                &&& (after.offset - r.offset) % 4 == 0
                &&& r.offset + 4 + length <= after.offset < r.offset + 4 + length + 4
            },
            (Err(e), Err(f)) => e == f,
            _ => false,
        },
{
    number_laws::lemma_at(r.buffer, r.offset);
    assert(r.at(r.offset + 4) == (ReaderState { offset: r.offset + 4, ..r }));
}

/// A pattern that was written comes back with its name, its place and its size, with the
/// colours of all its pixels, and opaque.
pub proof fn law_pattern_comes_back(p: PatternView)
    requires
        pattern_writer::pattern_writable(p),
    ensures
        ({
            let found = pattern_writer::stored_pattern(p);
            &&& found.name == p.name
            &&& found.x == p.x && found.y == p.y
            &&& found.bounds == p.bounds
            &&& found.id.len() == p.id.len()
            &&& forall|i: int|
                0 <= i < p.id.len() ==> #[trigger] found.id[i] == (if (p.id[i] as int) < 128 {
                    p.id[i]
                } else {
                    '?'
                })
            &&& found.data.len() == 4 * (p.bounds.w * p.bounds.h)
            &&& forall|k: int, c: int|
                #![trigger found.data[4 * k + c]]
                0 <= k < p.bounds.w * p.bounds.h && 0 <= c < 4 ==> found.data[4 * k + c] == (if c
                    == 3 {
                    255u8
                } else {
                    p.data[4 * k + c]
                })
        }),
{
    assert(0 < p.bounds.w * p.bounds.h) by (nonlinear_arith)
        requires
            p.bounds.w > 0,
            p.bounds.h > 0,
    ;
    let found = pattern_writer::stored_pattern(p);
    assert forall|k: int, c: int|
        #![trigger found.data[4 * k + c]]
        0 <= k < p.bounds.w * p.bounds.h && 0 <= c < 4 implies found.data[4 * k + c] == (if c
        == 3 {
        255u8
    } else {
        p.data[4 * k + c]
    }) by {
        assert((4 * k + c) % 4 == c);
    }
}

} // verus!
