//! What the composite image of a document is, in every colour mode and in whatever way it
//! is stored: which byte of the document is in which place of which pixel.

use vstd::arithmetic::power2::lemma2_to64;
use vstd::arithmetic::power2::pow2;
use vstd::prelude::*;

use crate::budget;
use crate::bytes;
use crate::channel_laws;
use crate::codec;
use crate::composite;
use crate::decode;
use crate::error::ErrorView;
use crate::header::Header;
use crate::matte;
use crate::number_laws;
use crate::pixels;
use crate::psd::{ColorMode, PaletteColor, PixelDataView};
use crate::reader::ReaderState;
use crate::records;
use crate::rle;
use crate::sample_laws;
use crate::sample_laws::Packet;
use crate::zlib;

verus! {

broadcast use crate::bytes::group_bytes;

/// The pixel `x` of the row `y` is black in a bitmap of one bit per pixel: every row takes
/// whole bytes, and the first of eight pixels is the most significant bit of a byte.
pub open spec fn black_pixel(input: Seq<u8>, at: int, width: int, x: int, y: int) -> bool {
    let row = (width + 7) / 8;
    let b = input[at + row * y + x / 8] as int;
    (b / pow2((7 - x % 8) as nat) as int) % 2 == 1
}

/// Pixels of a bitmap of one bit per pixel: black or white, and opaque.
pub open spec fn bits_painted(
    d: Seq<u8>,
    input: Seq<u8>,
    at: int,
    width: int,
    height: int,
) -> bool {
    forall|x: int, y: int|
        #![trigger black_pixel(input, at, width, x, y)]
        0 <= x < width && 0 <= y < height ==> {
            let k = 4 * (width * y + x);
            let v: u8 = if black_pixel(input, at, width, x, y) {
                0
            } else {
                255
            };
            d[k] == v && d[k + 1] == v && d[k + 2] == v && d[k + 3] == 255
        }
}

proof fn lemma_weight(b: u8, k: int)
    requires
        0 <= k < 8,
    ensures
        pixels::bit_weight(k) == pow2((7 - k) as nat),
{
    lemma2_to64();
}

proof fn lemma_pixel_place(width: int, height: int, x: int, y: int)
    requires
        0 <= x < width,
        0 <= y < height,
    ensures
        0 <= width * y + x < width * height,
        (width * y + x) % width == x,
        (width * y + x) / width == y,
{
    assert(width * y + x == y * width + x) by (nonlinear_arith);
    vstd::arithmetic::div_mod::lemma_fundamental_div_mod_converse(width * y + x, width, y, x);
    assert(0 <= width * y + x < width * height) by (nonlinear_arith)
        requires
            0 <= x < width,
            0 <= y < height,
    ;
}

/// Every pixel of a bitmap of one bit per pixel is black where its bit is set and white
/// where it is not, also in rows of more than one byte; what is behind the pixels stays.
pub proof fn law_bitmap_decoded(input: Seq<u8>, output: Seq<u8>, width: int, height: int)
    requires
        0 <= width,
        0 <= height,
        output.len() >= 4 * (width * height),
    ensures
        bits_painted(
            pixels::bitmap_decoded(input, output, width, height),
            input,
            0,
            width,
            height,
        ),
        pixels::bitmap_decoded(input, output, width, height).len() == output.len(),
        forall|i: int|
            4 * (width * height) <= i < output.len() ==> #[trigger] pixels::bitmap_decoded(
                input,
                output,
                width,
                height,
            )[i] == output[i],
{
    let d = pixels::bitmap_decoded(input, output, width, height);
    assert(width * height * 4 == 4 * (width * height));
    assert forall|x: int, y: int|
        #![trigger black_pixel(input, 0, width, x, y)]
        0 <= x < width && 0 <= y < height implies {
        let k = 4 * (width * y + x);
        let v: u8 = if black_pixel(input, 0, width, x, y) {
            0
        } else {
            255
        };
        d[k] == v && d[k + 1] == v && d[k + 2] == v && d[k + 3] == 255
    } by {
        lemma_pixel_place(width, height, x, y);
        let i = width * y + x;
        let row = (width + 7) / 8;
        assert(y * row == row * y) by (nonlinear_arith);
        lemma_weight(input[row * y + x / 8], x % 8);
        assert((4 * i) / 4 == i && (4 * i + 1) / 4 == i && (4 * i + 2) / 4 == i);
        assert((4 * i) % 4 == 0 && (4 * i + 1) % 4 == 1 && (4 * i + 2) % 4 == 2 && (4 * i + 3) % 4
            == 3);
    }
}

/// Pixels of palette colours: each has the red, green and blue of the colour that its
/// sample is the number of, and is opaque.
pub open spec fn colors_painted(
    d: Seq<u8>,
    samples: Seq<u8>,
    palette: Seq<PaletteColor>,
    count: int,
) -> bool {
    forall|k: int|
        0 <= k < count && #[trigger] samples[k] < palette.len() ==> {
            let c = palette[samples[k] as int];
            d[4 * k] == c.r && d[4 * k + 1] == c.g && d[4 * k + 2] == c.b && d[4 * k + 3] == 255
        }
}

/// Every pixel of an indexed image has the colour of its sample; a sample without a colour
/// leaves its pixel as it is.
pub proof fn law_indexed_decoded(
    samples: Seq<u8>,
    image: Seq<u8>,
    count: int,
    palette: Seq<PaletteColor>,
)
    requires
        0 <= count,
        image.len() == 4 * count,
    ensures
        colors_painted(
            composite::indexed_pixels(samples, image, count, palette),
            samples,
            palette,
            count,
        ),
        composite::indexed_pixels(samples, image, count, palette).len() == image.len(),
        forall|k: int|
            0 <= k < count && #[trigger] samples[k] >= palette.len() ==> {
                let d = composite::indexed_pixels(samples, image, count, palette);
                d[4 * k] == image[4 * k] && d[4 * k + 1] == image[4 * k + 1] && d[4 * k + 2]
                    == image[4 * k + 2] && d[4 * k + 3] == image[4 * k + 3]
            },
{
    let d = composite::indexed_pixels(samples, image, count, palette);
    assert forall|k: int| 0 <= k < count implies (4 * k) / 4 == k && (4 * k + 1) / 4 == k && (4 * k
        + 2) / 4 == k && (4 * k + 3) / 4 == k && #[trigger] samples[k] == samples[k] by {}
}

/// The channels of an image: three colours or one gray, then one for every channel beyond
/// three, or one where the document says that there is a transparency.
pub open spec fn channel_total(gray: bool, count: int, told: bool) -> int {
    (if gray {
        1int
    } else {
        3int
    }) + (if count > 3 {
        count - 3
    } else if told {
        1
    } else {
        0
    })
}

/// The place of the `c`-th channel of an image in a pixel: the colours come first, and the
/// first channel behind them is the transparency.
pub open spec fn channel_place(gray: bool, c: int) -> int {
    if gray && c > 0 {
        c + 2
    } else {
        c
    }
}

/// Pixels of an RGB or grayscale image: every channel in its place, gray in the place of
/// all three colours, opaque where there is no transparency.
pub open spec fn channels_painted(
    d: Seq<u8>,
    gray: bool,
    data: Seq<Seq<u8>>,
    depth: u32,
    count: int,
) -> bool {
    &&& d.len() == 4 * count
    &&& forall|c: int, k: int|
        #![trigger data[c], sample_laws::sample_byte(data[c], depth, k)]
        0 <= c < data.len() && channel_place(gray, c) < 4 && 0 <= k < count ==> d[4 * k
            + channel_place(gray, c)] == sample_laws::sample_byte(data[c], depth, k)
    &&& gray ==> forall|k: int|
        0 <= k < count ==> #[trigger] d[4 * k] == d[4 * k + 1] && d[4 * k] == d[4 * k + 2]
    &&& data.len() == (if gray {
        1int
    } else {
        3int
    }) ==> forall|k: int| 0 <= k < count ==> #[trigger] d[4 * k + 3] == 255
}

proof fn lemma_places(gray: bool, count: int, told: bool)
    requires
        0 <= count <= 1000,
    ensures
        ({
            let places = composite::composite_channels(gray, count, told);
            &&& places.len() == channel_total(gray, count, told)
            &&& forall|c: int| 0 <= c < places.len() ==> #[trigger] places[c] == channel_place(
                gray,
                c,
            )
            &&& channel_laws::places_distinct(places, places.len() as int)
        }),
{
}

proof fn lemma_channels_painted(
    e: Seq<u8>,
    gray: bool,
    places: Seq<usize>,
    data: Seq<Seq<u8>>,
    depth: u32,
    count: int,
)
    requires
        0 <= count,
        places.len() == data.len(),
        forall|c: int| 0 <= c < places.len() ==> #[trigger] places[c] == channel_place(gray, c),
        places.len() >= (if gray {
            1int
        } else {
            3int
        }),
        channel_laws::spread(
            pixels::opaque_black(4 * count),
            e,
            places,
            4,
            channel_laws::byte_planes_of(data, depth, count),
            places.len() as int,
        ),
    ensures
        channels_painted(
            if gray {
                pixels::grayed(e, 4 * count)
            } else {
                e
            },
            gray,
            data,
            depth,
            count,
        ),
{
    let planes = channel_laws::byte_planes_of(data, depth, count);
    let black = pixels::opaque_black(4 * count);
    let d = if gray {
        pixels::grayed(e, 4 * count)
    } else {
        e
    };
    assert forall|c: int, k: int|
        #![trigger data[c], sample_laws::sample_byte(data[c], depth, k)]
        0 <= c < data.len() && channel_place(gray, c) < 4 && 0 <= k < count implies d[4 * k
        + channel_place(gray, c)] == sample_laws::sample_byte(data[c], depth, k) by {
        assert(places[c] == channel_place(gray, c));
        assert(planes[c][k] == sample_laws::sample_byte(data[c], depth, k));
        assert(e[places[c] + 4 * k] == planes[c][k]);
    }
    if data.len() == (if gray {
        1int
    } else {
        3int
    }) {
        assert forall|k: int| 0 <= k < count implies #[trigger] d[4 * k + 3] == 255 by {
            let i = 4 * k + 3;
            assert forall|c: int| 0 <= c < places.len() implies #[trigger] places[c] >= 4 || i % 4
                != places[c] || i / 4 >= planes[c].len() by {
                assert(places[c] == channel_place(gray, c));
            }
            assert(e[i] == black[i]);
        }
    }
}

/// The planes of an image that is stored as it is lie one after the other.
pub open spec fn planes_at(
    buffer: Seq<u8>,
    at: int,
    data: Seq<Seq<u8>>,
    size: int,
) -> bool {
    forall|c: int|
        0 <= c < data.len() ==> (#[trigger] data[c]).len() == size && at + c * size + size
            <= buffer.len() && data[c] == buffer.subrange(at + c * size, at + c * size + size)
}

proof fn lemma_raw_channels(
    r: ReaderState,
    before: Seq<u8>,
    places: Seq<usize>,
    n: int,
    area: int,
    bits: u16,
    data: Seq<Seq<u8>>,
)
    requires
        bits == 8 || bits == 16 || bits == 32,
        0 <= area,
        0 <= r.offset,
        0 <= n <= places.len(),
        places.len() == data.len(),
        channel_laws::places_distinct(places, places.len() as int),
        planes_at(r.buffer, r.offset, data, sample_laws::sample_size(bits as u32) * area),
    ensures
        composite::get_raw_channels(r, before, places, n, area, bits) matches Ok((after, r1))
            && channel_laws::spread(
            before,
            after,
            places,
            4,
            channel_laws::byte_planes_of(data, bits as u32, area),
            n,
        ) && r1 == (ReaderState {
            offset: r.offset + n * (sample_laws::sample_size(bits as u32) * area),
            ..r
        }),
    decreases n,
{
    let size = sample_laws::sample_size(bits as u32) * area;
    if n > 0 {
        lemma_raw_channels(r, before, places, n - 1, area, bits, data);
        let (mid, r1) = composite::get_raw_channels(r, before, places, n - 1, area, bits)->Ok_0;
        let c = n - 1;
        let planes = channel_laws::byte_planes_of(data, bits as u32, area);
        assert(data[c].len() == size);
        assert(area * (bits as int / 8) == size) by (nonlinear_arith)
            requires
                bits as int / 8 == sample_laws::sample_size(bits as u32),
                size == sample_laws::sample_size(bits as u32) * area,
        ;
        assert(c * size + size == n * size) by (nonlinear_arith)
            requires
                n == c + 1,
        ;
        assert(0 <= size) by (nonlinear_arith)
            requires
                0 <= area,
                size == sample_laws::sample_size(bits as u32) * area,
                sample_laws::sample_size(bits as u32) >= 1,
        ;
        assert(0 <= c * size) by (nonlinear_arith)
            requires
                0 <= c,
                0 <= size,
        ;
        assert(codec::byte_channel(data[c], bits as u32) =~= planes[c]) by {
            assert forall|k: int| 0 <= k < area implies codec::byte_channel(
                data[c],
                bits as u32,
            )[k] == #[trigger] planes[c][k] by {
                number_laws::lemma_at(data[c], 4 * k);
                number_laws::lemma_at(data[c], 2 * k);
            }
        }
        if places[c] < 4 {
            sample_laws::lemma_filled(mid, places[c] as int, 4, planes[c]);
            let after = pixels::stored(mid, places[c] as int, 4, planes[c]);
            channel_laws::lemma_spread_more(before, mid, after, places, 4, planes, n);
        }
    } else {
        assert(n * size == 0) by (nonlinear_arith)
            requires
                n == 0,
        ;
    }
}

/// Compressed planes lie one after the other, each behind the bytes that the one before it
/// took: `ends[c]` is where the stream of the plane `c` starts.
pub open spec fn streams_at(
    buffer: Seq<u8>,
    ends: Seq<int>,
    forms: Seq<Seq<u8>>,
) -> bool {
    &&& ends.len() == forms.len() + 1
    &&& forall|c: int|
        0 <= c < forms.len() ==> {
            let rest = buffer.skip(ends[c]);
            let room = (#[trigger] forms[c]).len();
            let found = if zlib::zlib_length(rest) is Some {
                zlib::decompressed(rest, room, true)
            } else {
                zlib::decompressed(rest, room, false)
            };
            &&& 0 <= ends[c] < buffer.len()
            &&& ends[c] <= ends[c + 1] <= buffer.len()
            &&& zlib::zlib_length(rest) is Some || zlib::deflate_length(rest) is Some
            &&& found == Some((true, forms[c], (ends[c + 1] - ends[c]) as nat))
        }
}

/// The bytes that are compressed for each plane.
pub open spec fn zip_forms(
    data: Seq<Seq<u8>>,
    depth: u32,
    width: int,
    prediction: bool,
) -> Seq<Seq<u8>> {
    Seq::new(data.len(), |c: int| sample_laws::zip_form(data[c], depth, width, prediction))
}

proof fn lemma_zip_channels(
    r: ReaderState,
    before: Seq<u8>,
    places: Seq<usize>,
    n: int,
    h: Header,
    prediction: bool,
    ends: Seq<int>,
    data: Seq<Seq<u8>>,
)
    requires
        h.bits_per_channel == 8 || h.bits_per_channel == 16 || h.bits_per_channel == 32,
        h.width > 0,
        r.buffer.len() <= usize::MAX,
        0 <= n <= places.len(),
        places.len() == data.len(),
        channel_laws::places_distinct(places, places.len() as int),
        forall|c: int|
            0 <= c < data.len() ==> (#[trigger] data[c]).len() == sample_laws::sample_size(
                h.bits_per_channel as u32,
            ) * (h.width * h.height),
        streams_at(
            r.buffer,
            ends,
            zip_forms(data, h.bits_per_channel as u32, h.width as int, prediction),
        ),
        r.offset == ends[0],
    ensures
        match composite::get_zip_channels(r, before, places, n, h, prediction) {
            Ok((after, r1)) => channel_laws::spread(
                before,
                after,
                places,
                4,
                channel_laws::byte_planes_of(
                    data,
                    h.bits_per_channel as u32,
                    h.width * h.height,
                ),
                n,
            ) && r1 == (ReaderState { offset: ends[n], ..r }),
            Err(e) => e is ExceededMemoryLimit,
        },
    decreases n,
{
    if n > 0 {
        lemma_zip_channels(r, before, places, n - 1, h, prediction, ends, data);
        match composite::get_zip_channels(r, before, places, n - 1, h, prediction) {
            Err(_) => {},
            Ok((mid, r1)) => {
                let c = n - 1;
                let depth = h.bits_per_channel as u32;
                let width = h.width as int;
                let height = h.height as int;
                let forms = zip_forms(data, depth, width, prediction);
                let planes = channel_laws::byte_planes_of(data, depth, width * height);
                assert(data[c].len() == sample_laws::sample_size(depth) * (width * height));
                assert(forms[c] == sample_laws::zip_form(data[c], depth, width, prediction));
                sample_laws::law_zip_samples(data[c], depth, width, height, prediction);
                assert(composite::rest_of(r1) =~= r.buffer.skip(ends[c]));
                if places[c] < 4 {
                    sample_laws::law_inflated_channel_stored(
                        mid,
                        data[c],
                        depth,
                        width,
                        height,
                        4,
                        places[c] as int,
                        prediction,
                    );
                    let after = codec::inflated_stored(
                        mid,
                        width * height,
                        forms[c],
                        width,
                        height,
                        depth,
                        4,
                        places[c] as int,
                        prediction,
                    );
                    channel_laws::lemma_spread_more(before, mid, after, places, 4, planes, n);
                }
            },
        }
    }
}

/// How the planes of an image are stored at a place.
pub open spec fn image_at(
    buffer: Seq<u8>,
    at: int,
    compression: int,
    data: Seq<Seq<u8>>,
    depth: u32,
    width: int,
    height: int,
    large: bool,
) -> bool {
    let size = sample_laws::sample_size(depth) * (width * height);
    &&& forall|c: int| 0 <= c < data.len() ==> (#[trigger] data[c]).len() == size
    &&& if compression == 0 {
        planes_at(buffer, at, data, size)
    } else if compression == 1 {
        exists|rows: Seq<Seq<Packet>>| #[trigger]
            channel_laws::packed_at(buffer, at, rows, large) && rows.len() == data.len() * height
                && forall|c: int|
                0 <= c < data.len() ==> channel_laws::rows_stand_for(
                    rows,
                    c * height,
                    height,
                    width * sample_laws::sample_size(depth),
                    #[trigger] data[c],
                )
    } else {
        zipped_at(buffer, at, data, depth, width, compression == 3)
    }
}

/// Compressed planes lie one after the other from a place on.
pub open spec fn zipped_at(
    buffer: Seq<u8>,
    at: int,
    data: Seq<Seq<u8>>,
    depth: u32,
    width: int,
    prediction: bool,
) -> bool {
    exists|ends: Seq<int>| #[trigger]
        streams_at(buffer, ends, zip_forms(data, depth, width, prediction)) && ends[0] == at
}

/// The pixels of an image have the samples of its channels, from which the white behind
/// them is taken out where `on_white` says so.
pub open spec fn image_painted(
    p: PixelDataView,
    gray: bool,
    data: Seq<Seq<u8>>,
    depth: u32,
    count: int,
    on_white: bool,
) -> bool {
    exists|d: Seq<u8>| #[trigger]
        channels_painted(d, gray, data, depth, count) && p.data == (if on_white {
            matte::unmatted(d, 4 * count)
        } else {
            d
        })
}

/// An RGB or grayscale image has in each pixel the samples of its channels, in whatever
/// way and with whatever depth they are stored. Where the document says that there is a
/// transparency, the white behind an image of 8 bits is taken out. Only memory can be
/// missing.
pub proof fn law_color_image(r: ReaderState, h: Header, data: Seq<Seq<u8>>)
    requires
        h.color_mode == ColorMode::Rgb || h.color_mode == ColorMode::Grayscale,
        h.bits_per_channel == 8 || h.bits_per_channel == 16 || h.bits_per_channel == 32,
        0 < h.width <= 300000,
        0 < h.height <= 300000,
        h.channels <= 16,
        0 <= r.offset,
        r.offset + 2 <= r.buffer.len(),
        r.buffer.len() <= usize::MAX,
        number_laws::number16(r.buffer, r.offset) <= 3,
        data.len() == channel_total(
            h.color_mode == ColorMode::Grayscale,
            h.channels as int,
            r.global_alpha,
        ),
        image_at(
            r.buffer,
            r.offset + 2,
            number_laws::number16(r.buffer, r.offset),
            data,
            h.bits_per_channel as u32,
            h.width as int,
            h.height as int,
            r.large,
        ),
    ensures
        match composite::get_composite(r, h, None) {
            Ok((p, _)) => p.width == h.width && p.height == h.height && image_painted(
                p,
                h.color_mode == ColorMode::Grayscale,
                data,
                h.bits_per_channel as u32,
                h.width * h.height,
                r.global_alpha && h.bits_per_channel == 8,
            ),
            Err(e) => e is ExceededMemoryLimit,
        },
{
    reveal(composite::get_mode_image);
    reveal(composite::get_color_image);
    let gray = h.color_mode == ColorMode::Grayscale;
    let depth = h.bits_per_channel as u32;
    let width = h.width as int;
    let height = h.height as int;
    let size = width * height * 4;
    let v = number_laws::number16(r.buffer, r.offset);
    assert(0 < width * height) by (nonlinear_arith)
        requires
            0 < width,
            0 < height,
    ;
    number_laws::law_short_numbers_read(r);
    lemma_places(gray, h.channels as int, r.global_alpha);
    let places = composite::composite_channels(gray, h.channels as int, r.global_alpha);
    match budget::charged(r.budget, size) {
        Err(_) => {},
        Ok(left) => {
            let r1 = ReaderState { budget: left, ..r.at(r.offset + 2) };
            let black = pixels::opaque_black(size);
            assert(size == 4 * (width * height));
            let compression = records::compression_of(v as u16);
            if v == 0 {
                lemma_raw_channels(
                    r1,
                    black,
                    places,
                    places.len() as int,
                    width * height,
                    h.bits_per_channel,
                    data,
                );
                let (e, _) = composite::get_raw_channels(
                    r1,
                    black,
                    places,
                    places.len() as int,
                    width * height,
                    h.bits_per_channel,
                )->Ok_0;
                lemma_channels_painted(e, gray, places, data, depth, width * height);
            } else if v == 1 {
                let rows = choose|rows: Seq<Seq<Packet>>| #[trigger]
                    channel_laws::packed_at(r.buffer, r.offset + 2, rows, r.large) && rows.len()
                        == data.len() * height && forall|c: int|
                        0 <= c < data.len() ==> channel_laws::rows_stand_for(
                            rows,
                            c * height,
                            height,
                            width * sample_laws::sample_size(depth),
                            #[trigger] data[c],
                        );
                channel_laws::law_run_length_channels(
                    r1,
                    rows,
                    black,
                    places,
                    width,
                    height,
                    depth,
                    4,
                    r.large,
                    data,
                );
                match rle::get_rle(r1, Some(black), width, height, depth, 4, places, r.large) {
                    Err(_) => {},
                    Ok((e, _)) => {
                        lemma_channels_painted(
                            e->Some_0,
                            gray,
                            places,
                            data,
                            depth,
                            width * height,
                        );
                    },
                }
            } else {
                let prediction = v == 3;
                let ends = choose|ends: Seq<int>| #[trigger]
                    streams_at(r.buffer, ends, zip_forms(data, depth, width, prediction))
                        && ends[0] == r.offset + 2;
                lemma_zip_channels(
                    r1,
                    black,
                    places,
                    places.len() as int,
                    h,
                    v == 3,
                    ends,
                    data,
                );
                match composite::get_zip_channels(
                    r1,
                    black,
                    places,
                    places.len() as int,
                    h,
                    v == 3,
                ) {
                    Err(_) => {},
                    Ok((e, _)) => {
                        lemma_channels_painted(e, gray, places, data, depth, width * height);
                    },
                }
            }
        },
    }
}

/// One plane of bytes as it is stored at a place, in rows of `row` bytes.
pub open spec fn plane_at(
    buffer: Seq<u8>,
    at: int,
    compression: int,
    input: Seq<u8>,
    row: int,
    height: int,
    large: bool,
) -> bool {
    &&& input.len() == height * row
    &&& if compression == 0 {
        at + input.len() <= buffer.len() && input == buffer.subrange(at, at + input.len())
    } else if compression == 1 {
        exists|rows: Seq<Seq<Packet>>| #[trigger]
            channel_laws::packed_at(buffer, at, rows, large) && rows.len() == height
                && channel_laws::rows_stand_for(rows, 0, height, row, input)
    } else {
        zipped_at(buffer, at, seq![input], 8, row, compression == 3)
    }
}

#[verifier::rlimit(40)]
proof fn lemma_packed_plane(
    r: ReaderState,
    h: Header,
    rows: Seq<Seq<Packet>>,
    input: Seq<u8>,
    row: int,
)
    requires
        r.buffer.len() <= usize::MAX,
        0 <= row <= h.width,
        input.len() == h.height * row,
        channel_laws::packed_at(r.buffer, r.offset, rows, r.large),
        rows.len() == h.height,
        channel_laws::rows_stand_for(rows, 0, h.height as int, row, input),
    ensures
        match composite::get_plane(r, h) {
            Ok((d, r1)) => d.len() == h.width * h.height && (forall|k: int|
                0 <= k < input.len() ==> d[k] == #[trigger] input[k]),
            Err(e) => e is ExceededMemoryLimit,
        },
        input.len() <= h.width * h.height,
{
    let width = h.width as int;
    let height = h.height as int;
    let e = channel_laws::entry_bytes(r.large);
    let start = r.offset + e * rows.len();
    let places = seq![0usize];
    let count = places.len() * height;
    assert(count == height) by (nonlinear_arith)
        requires
            count == places.len() * height,
            places.len() == 1,
    ;
    assert(height * row <= width * height) by (nonlinear_arith)
        requires
            0 <= row <= width,
            0 <= height,
    ;
    let lengths = Seq::new(
        count as nat,
        |i: int|
            if r.large {
                bytes::u32_at(r.buffer, r.offset + 4 * i) as usize
            } else {
                bytes::u16_at(r.buffer, r.offset + 2 * i) as usize
            },
    );
    assert(count * rle::entry_size(r.large) == e * rows.len()) by (nonlinear_arith)
        requires
            count == rows.len(),
            rle::entry_size(r.large) == e,
    ;
    assert(rle::get_row_lengths(r, count, r.large) == Ok::<(Seq<usize>, ReaderState), ErrorView>(
        (lengths, r.at(start)),
    ));
    assert forall|i: int| 0 <= i < rows.len() implies {
        let code = sample_laws::row_code(#[trigger] rows[i]);
        let from = start + channel_laws::rows_end(rows, i);
        &&& sample_laws::row_wf(rows[i])
        &&& lengths[i] == code.len()
        &&& from + code.len() <= r.buffer.len()
        &&& forall|k: int| 0 <= k < code.len() ==> r.buffer[from + k] == #[trigger] code[k]
    } by {
        number_laws::lemma_at(r.buffer, r.offset + 4 * i);
        number_laws::lemma_at(r.buffer, r.offset + 2 * i);
    }
    let zeros = bytes::zeros(width * height);
    assert(0 * height == 0);
    channel_laws::lemma_rows_read(
        r.at(start),
        start,
        rows,
        lengths,
        0,
        height,
        height,
        row,
        width,
        input,
    );
    assert(input.take(height * row) =~= input);
    assert(rle::row_size(width, 8) == width);
    sample_laws::lemma_filled(zeros, 0, 1, input);
    let d = pixels::stored(zeros, 0, 1, input);
    assert forall|k: int| 0 <= k < input.len() implies d[k] == #[trigger] input[k] by {
        assert(d[0 + 1 * k] == input[k]);
    }
    assert(rle::get_channels(r.at(start), Some(zeros), lengths, places, 0, width, height, 8, 1)
        == Ok::<(Option<Seq<u8>>, ReaderState), ErrorView>((Some(zeros), r.at(start))));
}

/// What a stream at a place gives is the plane that it was made from.
proof fn lemma_zipped_plane(r: ReaderState, input: Seq<u8>, row: int, height: int, prediction: bool)
    requires
        r.buffer.len() <= usize::MAX,
        0 < row,
        0 <= height,
        input.len() == height * row,
        zipped_at(r.buffer, r.offset, seq![input], 8, row, prediction),
    ensures
        match composite::get_stream(r, height * row) {
            Ok((raw, _)) => composite::unpredicted_rows(raw, row, height, prediction) == input,
            Err(e) => e is ExceededMemoryLimit,
        },
{
    let forms = zip_forms(seq![input], 8, row, prediction);
    let ends = choose|ends: Seq<int>| #[trigger]
        streams_at(r.buffer, ends, forms) && ends[0] == r.offset;
    assert(forms[0] == sample_laws::zip_form(input, 8, row, prediction));
    assert(forms[0].len() == input.len());
    assert(composite::rest_of(r) =~= r.buffer.skip(ends[0]));
    assert(height * row == row * height) by (nonlinear_arith);
    if prediction {
        sample_laws::law_differences_undone(input, row, height);
    }
}

proof fn lemma_same_bits(d: Seq<u8>, input: Seq<u8>, out: Seq<u8>, width: int, height: int)
    requires
        0 < width,
        0 < height,
        input.len() == height * ((width + 7) / 8),
        input.len() <= d.len(),
        forall|k: int| 0 <= k < input.len() ==> d[k] == #[trigger] input[k],
        bits_painted(out, d, 0, width, height),
    ensures
        bits_painted(out, input, 0, width, height),
{
    let row = (width + 7) / 8;
    assert forall|x: int, y: int|
        #![trigger black_pixel(input, 0, width, x, y)]
        0 <= x < width && 0 <= y < height implies {
        let k = 4 * (width * y + x);
        let v: u8 = if black_pixel(input, 0, width, x, y) {
            0
        } else {
            255
        };
        out[k] == v && out[k + 1] == v && out[k + 2] == v && out[k + 3] == 255
    } by {
        let j = row * y + x / 8;
        assert(0 <= x / 8 < row);
        assert(0 <= j < height * row) by (nonlinear_arith)
            requires
                j == row * y + x / 8,
                0 <= x / 8 < row,
                0 <= y < height,
        ;
        assert(d[j] == input[j]);
        assert(black_pixel(d, 0, width, x, y) == black_pixel(input, 0, width, x, y));
    }
}

/// A bitmap mode image has a black pixel for every bit that is set and a white one for
/// every other, from left to right, in whatever way the bits are stored.
pub proof fn law_bitmap_image(r: ReaderState, h: Header, input: Seq<u8>)
    requires
        h.color_mode == ColorMode::Bitmap,
        h.bits_per_channel == 1,
        0 < h.width <= 300000,
        0 < h.height <= 300000,
        0 <= r.offset,
        r.offset + 2 <= r.buffer.len(),
        r.buffer.len() <= usize::MAX,
        number_laws::number16(r.buffer, r.offset) <= 3,
        plane_at(
            r.buffer,
            r.offset + 2,
            number_laws::number16(r.buffer, r.offset),
            input,
            (h.width + 7) / 8,
            h.height as int,
            r.large,
        ),
    ensures
        match composite::get_composite(r, h, None) {
            Ok((p, _)) => p.width == h.width && p.height == h.height && p.data.len() == 4 * (h.width
                * h.height) && bits_painted(p.data, input, 0, h.width as int, h.height as int),
            Err(e) => e is ExceededMemoryLimit,
        },
{
    reveal(composite::get_mode_image);
    reveal(composite::get_bitmap_image);
    let width = h.width as int;
    let height = h.height as int;
    let row = (h.width + 7) / 8;
    let v = number_laws::number16(r.buffer, r.offset);
    let size = width * height * 4;
    number_laws::law_short_numbers_read(r);
    assert(0 < width * height) by (nonlinear_arith)
        requires
            0 < width,
            0 < height,
    ;
    assert(row * height == height * row) by (nonlinear_arith);
    match budget::charged(r.budget, size) {
        Err(_) => {},
        Ok(left) => {
            let r1 = ReaderState { budget: left, ..r.at(r.offset + 2) };
            let black = pixels::opaque_black(size);
            if v == 0 {
                law_bitmap_decoded(input, black, width, height);
            } else if v == 1 {
                let rows = choose|rows: Seq<Seq<Packet>>| #[trigger]
                    channel_laws::packed_at(r.buffer, r.offset + 2, rows, r.large) && rows.len()
                        == height && channel_laws::rows_stand_for(rows, 0, height, row, input);
                lemma_packed_plane(r1, h, rows, input, row);
                match composite::get_plane(r1, h) {
                    Err(_) => {},
                    Ok((d, _)) => {
                        law_bitmap_decoded(d, black, width, height);
                        lemma_same_bits(
                            d,
                            input,
                            pixels::bitmap_decoded(d, black, width, height),
                            width,
                            height,
                        );
                    },
                }
            } else {
                lemma_zipped_plane(r1, input, row, height, v == 3);
                law_bitmap_decoded(input, black, width, height);
            }
        },
    }
}

proof fn lemma_colors_opaque(
    samples: Seq<u8>,
    image: Seq<u8>,
    count: int,
    palette: Seq<PaletteColor>,
)
    requires
        0 <= count,
        image == pixels::opaque_black(4 * count),
    ensures
        ({
            let d = composite::indexed_pixels(samples, image, count, palette);
            matte::unmatted(d, 4 * count) == d
        }),
{
    let d = composite::indexed_pixels(samples, image, count, palette);
    let u = matte::unmatted(d, 4 * count);
    assert(u.len() == d.len());
    assert forall|i: int| 0 <= i < d.len() implies #[trigger] u[i] == d[i] by {
        if i < 4 * count {
            let k = i / 4;
            assert((4 * k + 3) % 4 == 3);
            assert(d[4 * k + 3] == 255);
            assert(i - i % 4 + 3 == 4 * k + 3);
        }
    }
    assert(u =~= d);
}

proof fn lemma_indexed_read(
    r: ReaderState,
    h: Header,
    palette: Seq<PaletteColor>,
    samples: Seq<u8>,
    left: Option<usize>,
)
    requires
        h.color_mode == ColorMode::Indexed,
        h.bits_per_channel == 8,
        h.channels == 1,
        0 < h.width <= 300000,
        0 < h.height <= 300000,
        0 <= r.offset,
        r.offset + 2 <= r.buffer.len(),
        r.buffer.len() <= usize::MAX,
        1 <= number_laws::number16(r.buffer, r.offset) <= 3,
        plane_at(
            r.buffer,
            r.offset + 2,
            number_laws::number16(r.buffer, r.offset),
            samples,
            h.width as int,
            h.height as int,
            r.large,
        ),
    ensures
        ({
            let count = h.width * h.height;
            let black = pixels::opaque_black(count * 4);
            match composite::get_mode_image(
                ReaderState { budget: left, ..r.at(r.offset + 2) },
                h,
                black,
                records::compression_of(number_laws::number16(r.buffer, r.offset) as u16),
                Some(palette),
            ) {
                Ok((image, _)) => image == composite::indexed_pixels(
                    samples,
                    black,
                    count,
                    palette,
                ),
                Err(e) => e is ExceededMemoryLimit,
            }
        }),
{
    reveal(composite::get_mode_image);
    reveal(composite::get_indexed_image);
    let width = h.width as int;
    let height = h.height as int;
    let v = number_laws::number16(r.buffer, r.offset);
    assert(0 < width * height) by (nonlinear_arith)
        requires
            0 < width,
            0 < height,
    ;
    assert(width * height == height * width) by (nonlinear_arith);
    let r1 = ReaderState { budget: left, ..r.at(r.offset + 2) };
    if v == 1 {
        let rows = choose|rows: Seq<Seq<Packet>>| #[trigger]
            channel_laws::packed_at(r.buffer, r.offset + 2, rows, r.large) && rows.len() == height
                && channel_laws::rows_stand_for(rows, 0, height, width, samples);
        lemma_packed_plane(r1, h, rows, samples, width);
        match composite::get_plane(r1, h) {
            Err(_) => {},
            Ok((found, _)) => {
                assert(found =~= samples);
            },
        }
    } else {
        lemma_zipped_plane(r1, samples, width, height, v == 3);
    }
}

/// Pixels whose sample has no colour are black.
pub open spec fn blacks_left(
    d: Seq<u8>,
    samples: Seq<u8>,
    palette: Seq<PaletteColor>,
    count: int,
) -> bool {
    forall|k: int|
        0 <= k < count && #[trigger] samples[k] >= palette.len() ==> d[4 * k] == 0 && d[4 * k + 1]
            == 0 && d[4 * k + 2] == 0 && d[4 * k + 3] == 255
}

proof fn lemma_blacks_left(samples: Seq<u8>, count: int, palette: Seq<PaletteColor>)
    requires
        0 <= count,
    ensures
        blacks_left(
            composite::indexed_pixels(
                samples,
                pixels::opaque_black(count * 4),
                count,
                palette,
            ),
            samples,
            palette,
            count,
        ),
{
    let d = composite::indexed_pixels(samples, pixels::opaque_black(count * 4), count, palette);
    assert forall|k: int| 0 <= k < count && #[trigger] samples[k] >= palette.len() implies d[4 * k]
        == 0 && d[4 * k + 1] == 0 && d[4 * k + 2] == 0 && d[4 * k + 3] == 255 by {
        lemma_black_left(samples, count, palette, k);
    }
}

proof fn lemma_black_left(samples: Seq<u8>, count: int, palette: Seq<PaletteColor>, k: int)
    requires
        0 <= k < count,
        samples[k] >= palette.len(),
    ensures
        ({
            let d = composite::indexed_pixels(
                samples,
                pixels::opaque_black(count * 4),
                count,
                palette,
            );
            d[4 * k] == 0 && d[4 * k + 1] == 0 && d[4 * k + 2] == 0 && d[4 * k + 3] == 255
        }),
{
    assert((4 * k) / 4 == k && (4 * k + 1) / 4 == k && (4 * k + 2) / 4 == k && (4 * k + 3) / 4
        == k);
}

proof fn lemma_indexed_shown(
    r: ReaderState,
    h: Header,
    palette: Seq<PaletteColor>,
    samples: Seq<u8>,
    left: Option<usize>,
)
    requires
        h.color_mode == ColorMode::Indexed,
        h.bits_per_channel == 8,
        h.channels == 1,
        0 < h.width <= 300000,
        0 < h.height <= 300000,
        0 <= r.offset,
        r.offset + 2 <= r.buffer.len(),
        r.buffer.len() <= usize::MAX,
        1 <= number_laws::number16(r.buffer, r.offset) <= 3,
        plane_at(
            r.buffer,
            r.offset + 2,
            number_laws::number16(r.buffer, r.offset),
            samples,
            h.width as int,
            h.height as int,
            r.large,
        ),
    ensures
        ({
            let count = h.width * h.height;
            let black = pixels::opaque_black(count * 4);
            match composite::get_mode_image(
                ReaderState { budget: left, ..r.at(r.offset + 2) },
                h,
                black,
                records::compression_of(number_laws::number16(r.buffer, r.offset) as u16),
                Some(palette),
            ) {
                Ok((image, _)) => {
                    &&& image.len() == 4 * count
                    &&& matte::unmatted(image, count * 4) == image
                    &&& colors_painted(image, samples, palette, count)
                    &&& blacks_left(image, samples, palette, count)
                },
                Err(e) => e is ExceededMemoryLimit,
            }
        }),
{
    let count = h.width * h.height;
    assert(0 < count) by (nonlinear_arith)
        requires
            0 < h.width,
            0 < h.height,
            count == h.width * h.height,
    ;
    let black = pixels::opaque_black(count * 4);
    lemma_indexed_read(r, h, palette, samples, left);
    law_indexed_decoded(samples, black, count, palette);
    lemma_blacks_left(samples, count, palette);
    lemma_colors_opaque(samples, black, count, palette);
}

/// An indexed image has in each pixel the colour that its sample is the number of, in
/// whatever way the samples are compressed; a sample without a colour is black.
pub proof fn law_indexed_image(
    r: ReaderState,
    h: Header,
    palette: Seq<PaletteColor>,
    samples: Seq<u8>,
)
    requires
        h.color_mode == ColorMode::Indexed,
        h.bits_per_channel == 8,
        h.channels == 1,
        0 < h.width <= 300000,
        0 < h.height <= 300000,
        0 <= r.offset,
        r.offset + 2 <= r.buffer.len(),
        r.buffer.len() <= usize::MAX,
        1 <= number_laws::number16(r.buffer, r.offset) <= 3,
        plane_at(
            r.buffer,
            r.offset + 2,
            number_laws::number16(r.buffer, r.offset),
            samples,
            h.width as int,
            h.height as int,
            r.large,
        ),
    ensures
        match composite::get_composite(r, h, Some(palette)) {
            Ok((p, _)) => {
                &&& p.width == h.width
                &&& p.height == h.height
                &&& p.data.len() == 4 * (h.width * h.height)
                &&& colors_painted(p.data, samples, palette, h.width * h.height)
                &&& blacks_left(p.data, samples, palette, h.width * h.height)
            },
            Err(e) => e is ExceededMemoryLimit,
        },
{
    let count = h.width * h.height;
    let size = count * 4;
    number_laws::law_short_numbers_read(r);
    assert(0 < count) by (nonlinear_arith)
        requires
            0 < h.width,
            0 < h.height,
            count == h.width * h.height,
    ;
    match budget::charged(r.budget, size) {
        Err(_) => {},
        Ok(left) => {
            lemma_indexed_shown(r, h, palette, samples, left);
        },
    }
}

/// A sample over white is what the sample, in the share that its opacity states, and white
/// for the rest make together, rounded down, or one less; without the white it is the
/// sample of which that is true, as far as bytes can tell. Fully opaque and fully
/// transparent pixels stay as they are, and so does the opacity.
pub proof fn law_matte(data: Seq<u8>, size: int)
    requires
        0 <= size <= data.len(),
        size % 4 == 0,
    ensures
        ({
            let over = matte::matted(data, size);
            let under = matte::unmatted(data, size);
            &&& over.len() == data.len() && under.len() == data.len()
            &&& forall|i: int|
                0 <= i < data.len() && (i >= size || i % 4 == 3) ==> #[trigger] over[i] == data[i]
                    && under[i] == data[i]
            &&& forall|i: int|
                0 <= i < size && i % 4 != 3 ==> {
                    let a = data[i - i % 4 + 3] as int;
                    let exact = data[i] * a + 255 * (255 - a);
                    if a == 0 || a == 255 {
                        #[trigger] over[i] == data[i] && under[i] == data[i]
                    } else {
                        &&& 255 * over[i] <= exact < 255 * (over[i] + 2)
                        &&& under[i] > 0 ==> a * under[i] <= 255 * data[i] - 255 * (255 - a) < a * (
                        under[i] + 2)
                        &&& under[i] == 0 ==> 255 * data[i] - 255 * (255 - a) < a * 2
                    }
                }
        }),
{
    let over = matte::matted(data, size);
    let under = matte::unmatted(data, size);
    assert forall|i: int| 0 <= i < size && i % 4 != 3 implies {
        let a = data[i - i % 4 + 3] as int;
        let exact = data[i] * a + 255 * (255 - a);
        if a == 0 || a == 255 {
            #[trigger] over[i] == data[i] && under[i] == data[i]
        } else {
            &&& 255 * over[i] <= exact < 255 * (over[i] + 2)
            &&& under[i] > 0 ==> a * under[i] <= 255 * data[i] - 255 * (255 - a) < a * (under[i]
                + 2)
            &&& under[i] == 0 ==> 255 * data[i] - 255 * (255 - a) < a * 2
        }
    } by {
        let a = data[i - i % 4 + 3];
        if 0 < a < 255 {
            lemma_matte(data[i], a);
        }
    }
}

proof fn lemma_matte(sample: u8, alpha: u8)
    requires
        0 < alpha < 255,
    ensures
        ({
            let a = alpha as int;
            let s = sample as int;
            let over = matte::over_white(sample, alpha) as int;
            let under = matte::without_white(sample, alpha) as int;
            &&& 255 * over <= s * a + 255 * (255 - a) < 255 * (over + 2)
            &&& under > 0 ==> a * under <= 255 * s - 255 * (255 - a) < a * (under + 2)
            &&& under == 0 ==> 255 * s - 255 * (255 - a) < a * 2
        }),
{
    let a = alpha as int;
    let s = sample as int;
    let n = (255 - s) * a;
    let q = matte::ceiling(n, 255);
    assert(0 <= n <= 255 * 254) by (nonlinear_arith)
        requires
            n == (255 - s) * a,
            0 <= s <= 255,
            0 < a < 255,
    ;
    assert(n == 255 * a - s * a) by (nonlinear_arith)
        requires
            n == (255 - s) * a,
    ;
    assert(255 * q - 255 < n <= 255 * q);
    assert(matte::short_over_white(sample, alpha) ==> q <= 254);
    let m = (255 - s) * 255;
    let t = matte::ceiling(m, a);
    let p = m + a - 1;
    vstd::arithmetic::div_mod::lemma_fundamental_div_mod(p, a);
    assert(a * t - a < m <= a * t) by (nonlinear_arith)
        requires
            p == a * t + p % a,
            0 <= p % a < a,
            p == m + a - 1,
    ;
    let short: int = if matte::short_without_white(sample, alpha) {
        1
    } else {
        0
    };
    let value = 255 - t - short;
    assert(a * (255 - t - short) == 255 * a - a * t - a * short) by (nonlinear_arith);
    assert(a * (value + 2) == a * value + 2 * a) by (nonlinear_arith);
    assert(a * short == (if short == 1 {
        a
    } else {
        0
    })) by (nonlinear_arith)
        requires
            short == 0 || short == 1,
    ;
    if value < 0 {
        assert(a * (value + 2) <= a * 2) by (nonlinear_arith)
            requires
                value < 0,
                0 < a,
        ;
    }
}

/// Each colour of a pixel of CMYK samples, which count from no light to full light, is its
/// sample in the share that the fourth one states; the opacity comes behind them.
pub proof fn law_inks(src: Seq<u8>, count: int)
    requires
        0 <= count,
        src.len() == 5 * count,
    ensures
        ({
            let d = decode::rgb_of_cmyk(src, 4 * count, false);
            let reversed = decode::rgb_of_cmyk(src, 4 * count, true);
            &&& d.len() == 4 * count
            &&& forall|k: int, c: int|
                #![trigger src[5 * k + c]]
                0 <= k < count && 0 <= c < 3 ==> 255 * d[4 * k + c] <= src[5 * k + c] * src[5 * k
                    + 3] < 255 * (d[4 * k + c] + 1) && reversed[4 * k + c] == d[4 * k + c]
            &&& forall|k: int|
                0 <= k < count ==> d[4 * k + 3] == #[trigger] src[5 * k + 4] && reversed[4 * k + 3]
                    == 255 - src[5 * k + 4]
        }),
{
    let d = decode::rgb_of_cmyk(src, 4 * count, false);
    assert forall|k: int, c: int|
        #![trigger src[5 * k + c]]
        0 <= k < count && 0 <= c < 3 implies 255 * d[4 * k + c] <= src[5 * k + c] * src[5 * k + 3]
        < 255 * (d[4 * k + c] + 1) by {
        assert((4 * k + c) / 4 == k && (4 * k + c) % 4 == c);
        let n = src[5 * k + c] * src[5 * k + 3];
        assert(0 <= n <= 255 * 255) by (nonlinear_arith)
            requires
                n == src[5 * k + c] * src[5 * k + 3],
        ;
    }
}

} // verus!
