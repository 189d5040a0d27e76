//! The channels of layers are read where they were written, and decode to the
//! pixels that they were made from.

use vstd::prelude::*;

use crate::budget;
use crate::bytes;
use crate::channels;
use crate::channels::{ChannelDataView, PlannedChannel, Source};
use crate::codec;
use crate::decode;
use crate::decode::DecodeView;
use crate::error::ErrorView;
use crate::helpers;
use crate::mask;
use crate::pixels;
use crate::psd::{ChannelId, ColorMode, LayerMaskView, PixelDataView, RawChannelView, RawDataView};
use crate::reader::ReaderState;
use crate::record_laws;
use crate::record_writer;
use crate::records;
use crate::rle;
use crate::roundtrip;
use crate::writer;

verus! {

broadcast use crate::bytes::group_bytes;

/// A channel as it comes back before it is decoded.
pub open spec fn stored_raw(c: ChannelDataView) -> RawChannelView {
    RawChannelView {
        id: c.channel_id,
        compression: c.compression,
        data: if record_writer::channel_body(c).len() == 0 {
            None
        } else {
            Some(record_writer::channel_body(c))
        },
    }
}

/// The channels of a layer as they come back before they are decoded.
pub open spec fn stored_raws(channels: Seq<ChannelDataView>) -> Seq<RawChannelView> {
    Seq::new(channels.len(), |i: int| stored_raw(channels[i]))
}

/// The length of a channel counts its code and the two bytes before it.
pub open spec fn length_stated(c: ChannelDataView) -> bool {
    c.length == record_writer::channel_body(c).len() + 2
}

proof fn lemma_raw_channel_reads_back(r: ReaderState, c: ChannelDataView)
    requires
        r.buffer.len() <= usize::MAX,
        length_stated(c),
        c.length < 0x1_0000_0000,
        bytes::holds_at(r.buffer, r.offset, record_writer::channel_bytes(c)),
    ensures
        records::get_raw_channel(r, record_laws::channel_info(c)) == Ok::<
            (RawChannelView, ReaderState),
            ErrorView,
        >((stored_raw(c), r.at(r.offset + record_writer::channel_bytes(c).len()))),
{
    let body = record_writer::channel_body(c);
    let code = record_writer::compression_code(c.compression);
    bytes::lemma_holds_at_split(r.buffer, r.offset, bytes::u16_bytes(code), body);
    roundtrip::law_uint16_round_trip(r, code);
    roundtrip::law_bytes_round_trip(r.at(r.offset + 2), body);
    assert(writer::low32(c.length as int) == c.length);
    assert(records::compression_of(code) == c.compression);
    assert(records::channel_id_of(helpers::channel_code(c.channel_id)) == c.channel_id);
}

/// The channels of a layer are read where they were written.
pub proof fn law_raw_channels_round_trip(r: ReaderState, channels: Seq<ChannelDataView>, n: int)
    requires
        r.buffer.len() <= usize::MAX,
        0 <= n <= channels.len(),
        forall|i: int|
            0 <= i < channels.len() ==> length_stated(#[trigger] channels[i])
                && channels[i].length < 0x1_0000_0000,
        bytes::holds_at(
            r.buffer,
            r.offset,
            bytes::concat(record_writer::channel_pieces(channels)),
        ),
    ensures
        records::get_raw_channels(r, record_laws::channel_infos(channels), n) == Ok::<
            (Seq<RawChannelView>, ReaderState),
            ErrorView,
        >(
            (
                stored_raws(channels).take(n),
                r.at(
                    r.offset + bytes::concat(
                        record_writer::channel_pieces(channels).take(n),
                    ).len(),
                ),
            ),
        ),
    decreases n,
{
    let pieces = record_writer::channel_pieces(channels);
    if n == 0 {
        assert(pieces.take(0) =~= Seq::<Seq<u8>>::empty());
        assert(stored_raws(channels).take(0) =~= Seq::<RawChannelView>::empty());
    } else {
        law_raw_channels_round_trip(r, channels, n - 1);
        bytes::lemma_holds_at_piece(r.buffer, r.offset, pieces, n - 1);
        bytes::lemma_concat_take(pieces, n - 1);
        let r1 = r.at(r.offset + bytes::concat(pieces.take(n - 1)).len());
        lemma_raw_channel_reads_back(r1, channels[n - 1]);
        assert(stored_raws(channels).take(n) =~= stored_raws(channels).take(n - 1).push(
            stored_raw(channels[n - 1]),
        ));
    }
}

/// The memory limit was exceeded, where there is one.
pub open spec fn over_limit(e: ErrorView, budget: Option<usize>) -> bool {
    budget is Some && e is ExceededMemoryLimit
}

/// A channel decodes to the samples that it was made from, unless the memory
/// limit is exceeded.
proof fn lemma_channel_decodes(
    c: ChannelDataView,
    id: ChannelId,
    p: PixelDataView,
    channel: usize,
    compress: bool,
    psb: bool,
    data: Seq<u8>,
    budget: Option<usize>,
)
    requires
        channels::codes(
            c,
            PlannedChannel { id, source: Source::Plane(p, channel as int) },
            compress,
            psb,
        ),
        channel < 4,
        0 < p.width <= mask::max_side(psb),
        0 < p.height <= mask::max_side(psb),
        p.width * p.height <= usize::MAX,
        record_writer::channel_body(c).len() <= usize::MAX,
    ensures
        record_writer::channel_body(c).len() > 0,
        match codec::get_data(
            decode::channel_reader(record_writer::channel_body(c), budget),
            record_writer::channel_body(c).len() as int,
            Some(data),
            c.compression,
            p.width as int,
            p.height as int,
            8,
            channel as int,
            psb,
            4,
        ) {
            Err(e) => over_limit(e, budget),
            Ok((found, _)) => found == Some(
                pixels::stored(data, channel as int, 4, pixels::plane(p, channel as int)),
            ),
        },
{
    let code = record_writer::channel_body(c);
    let r = decode::channel_reader(code, budget);
    bytes::lemma_piece_holds(code, Seq::empty(), code, Seq::empty());
    if compress {
        assert(0 <= p.width * p.height == p.width * p.height * 1) by (nonlinear_arith);
        bytes::lemma_holds_at_room(code, 0, code);
        if p.width * p.height <= budget::available(budget) {
            codec::law_zip_round_trip(r, data, p, channel as int, code, 4, psb);
        }
    } else {
        let one = seq![channel];
        assert(one.len() == 1);
        assert(1 * p.height == p.height);
        lemma_code_not_empty(p, channel, psb);
        if 4 * (one.len() * p.height) <= budget::available(budget) {
            rle::law_rle_round_trip(r, data, p, one, 4, psb);
            assert(rle::with_planes(data, p, one, 0, 4) == data);
            assert(rle::with_planes(data, p, one, 1, 4) == pixels::stored(
                data,
                channel as int,
                4,
                pixels::plane(p, channel as int),
            ));
        }
    }
}

proof fn lemma_code_not_empty(p: PixelDataView, channel: usize, psb: bool)
    requires
        p.height > 0,
    ensures
        rle::rle_bytes(p, seq![channel], psb).len() > 0,
{
    let one = seq![channel];
    assert(one.drop_last() =~= Seq::<usize>::empty());
    assert(rle::all_rows(p, one.drop_last()) =~= Seq::<Seq<u8>>::empty());
    let rows = rle::all_rows(p, one);
    assert(rows =~= rle::channel_rows(p, channel as int));
    let table = rle::length_table(rows, psb);
    assert(table.len() > 0);
    bytes::lemma_concat_take(table, 0);
    bytes::lemma_concat_prefix(table, 1);
    assert(table[0].len() > 0);
}

/// The places in a pixel that the colour channels of a layer go to.
pub open spec fn color_offsets(transparency: bool) -> Seq<usize> {
    if transparency {
        seq![3usize, 0usize, 1usize, 2usize]
    } else {
        seq![0usize, 1usize, 2usize]
    }
}

/// What has been decoded of a layer after its first `n` colour channels.
pub open spec fn colors_decoded(
    s: DecodeView,
    p: PixelDataView,
    transparency: bool,
    n: int,
) -> DecodeView {
    DecodeView {
        image: match s.image {
            Some(d) => Some(rle::with_planes(d, p, color_offsets(transparency), n, 4)),
            None => None,
        },
        alpha: s.alpha || (transparency && n > 0),
        ..s
    }
}

/// Decoding went as expected, unless the memory limit is exceeded.
pub open spec fn decodes_to(
    result: Result<DecodeView, ErrorView>,
    expected: DecodeView,
    budget: Option<usize>,
) -> bool {
    match result {
        Err(e) => over_limit(e, budget),
        Ok(s) => s == (DecodeView { budget: s.budget, ..expected }) && (budget is None
            ==> s.budget is None),
    }
}

/// The stored channels of a layer in an 8-bit RGB document.
pub open spec fn stored_pixels_of(cs: Seq<ChannelDataView>, psb: bool) -> RawDataView {
    RawDataView {
        color_mode: ColorMode::Rgb,
        bits_per_channel: 8,
        channels: stored_raws(cs),
        large: psb,
    }
}

/// Every code fits in memory.
pub open spec fn codes_in_memory(cs: Seq<ChannelDataView>) -> bool {
    forall|i: int|
        0 <= i < cs.len() ==> record_writer::channel_body(#[trigger] cs[i]).len() <= usize::MAX
}

pub proof fn lemma_colors_decode(
    s: DecodeView,
    cs: Seq<ChannelDataView>,
    plan: Seq<PlannedChannel>,
    p: PixelDataView,
    transparency: bool,
    n: int,
    compress: bool,
    psb: bool,
    use_image_data: bool,
)
    requires
        channels::codes_all(cs, plan, compress, psb),
        codes_in_memory(cs),
        plan.len() >= color_offsets(transparency).len(),
        plan.take(color_offsets(transparency).len() as int) == channels::color_plan(
            p,
            transparency,
        ),
        0 <= n <= color_offsets(transparency).len(),
        s.image is Some,
        0 < p.width <= mask::max_side(psb),
        0 < p.height <= mask::max_side(psb),
        p.width * p.height <= usize::MAX,
    ensures
        decodes_to(
            decode::decode_steps(
                s,
                stored_pixels_of(cs, psb),
                n,
                p.width as int,
                p.height as int,
                use_image_data,
            ),
            colors_decoded(s, p, transparency, n),
            s.budget,
        ),
    decreases n,
{
    let raw = stored_pixels_of(cs, psb);
    if n > 0 {
        lemma_colors_decode(
            s,
            cs,
            plan,
            p,
            transparency,
            n - 1,
            compress,
            psb,
            use_image_data,
        );
        let c = cs[n - 1];
        assert(plan.take(color_offsets(transparency).len() as int)[n - 1] == plan[n - 1]);
        assert(channels::codes(c, plan[n - 1], compress, psb));
        lemma_color_plan(p, transparency, n - 1);
        assert(raw.channels[n - 1] == stored_raw(c));
        match decode::decode_steps(
            s,
            raw,
            n - 1,
            p.width as int,
            p.height as int,
            use_image_data,
        ) {
            Err(_) => {},
            Ok(t) => {
                lemma_color_step(
                    t,
                    raw,
                    c,
                    plan[n - 1].id,
                    p,
                    color_offsets(transparency)[n - 1],
                    compress,
                    psb,
                    use_image_data,
                );
            },
        }
    }
}

proof fn lemma_color_plan(p: PixelDataView, transparency: bool, k: int)
    requires
        0 <= k < color_offsets(transparency).len(),
    ensures
        ({
            let planned = channels::color_plan(p, transparency)[k];
            let offset = color_offsets(transparency)[k];
            &&& planned.source == Source::Plane(p, offset as int)
            &&& helpers::channel_offset(planned.id, false) == offset
            &&& planned.id != ChannelId::UserMask
            &&& planned.id != ChannelId::RealUserMask
            &&& (planned.id == ChannelId::Transparency) == (transparency && k == 0)
            &&& offset < 4
        }),
{
}

proof fn lemma_color_step(
    t: DecodeView,
    raw: RawDataView,
    c: ChannelDataView,
    id: ChannelId,
    p: PixelDataView,
    offset: usize,
    compress: bool,
    psb: bool,
    use_image_data: bool,
)
    requires
        channels::codes(
            c,
            PlannedChannel { id, source: Source::Plane(p, offset as int) },
            compress,
            psb,
        ),
        raw.color_mode == ColorMode::Rgb,
        raw.bits_per_channel == 8,
        raw.large == psb,
        helpers::channel_offset(id, false) == offset,
        id != ChannelId::UserMask,
        id != ChannelId::RealUserMask,
        offset < 4,
        t.image is Some,
        0 < p.width <= mask::max_side(psb),
        0 < p.height <= mask::max_side(psb),
        p.width * p.height <= usize::MAX,
        record_writer::channel_body(c).len() <= usize::MAX,
    ensures
        decodes_to(
            decode::decode_step(
                t,
                raw,
                stored_raw(c),
                p.width as int,
                p.height as int,
                use_image_data,
            ),
            DecodeView {
                image: Some(
                    pixels::stored(
                        t.image->Some_0,
                        offset as int,
                        4,
                        pixels::plane(p, offset as int),
                    ),
                ),
                alpha: t.alpha || id == ChannelId::Transparency,
                ..t
            },
            t.budget,
        ),
{
    reveal(decode::decode_step);
    lemma_channel_decodes(c, id, p, offset, compress, psb, t.image->Some_0, t.budget);
}

pub proof fn lemma_empty_decode(
    s: DecodeView,
    cs: Seq<ChannelDataView>,
    plan: Seq<PlannedChannel>,
    n: int,
    compress: bool,
    psb: bool,
    width: int,
    height: int,
    use_image_data: bool,
)
    requires
        channels::codes_all(cs, plan, compress, psb),
        plan.len() >= 4,
        plan.take(4) == channels::empty_plan(),
        0 <= n <= 4,
    ensures
        decode::decode_steps(s, stored_pixels_of(cs, psb), n, width, height, use_image_data) == Ok::<
            DecodeView,
            ErrorView,
        >(s),
    decreases n,
{
    if n > 0 {
        lemma_empty_decode(
            s,
            cs,
            plan,
            n - 1,
            compress,
            psb,
            width,
            height,
            use_image_data,
        );
        assert(plan.take(4)[n - 1] == plan[n - 1]);
        assert(channels::codes(cs[n - 1], plan[n - 1], compress, psb));
        assert(stored_pixels_of(cs, psb).channels[n - 1] == stored_raw(cs[n - 1]));
        reveal(decode::decode_step);
    }
}

/// Where the planes of a bitmap end up.
proof fn lemma_with_planes(
    data: Seq<u8>,
    p: PixelDataView,
    transparency: bool,
    n: int,
)
    requires
        data.len() == p.size(),
        p.wf(),
        0 <= n <= color_offsets(transparency).len(),
    ensures
        rle::with_planes(data, p, color_offsets(transparency), n, 4).len() == p.size(),
        forall|i: int|
            0 <= i < p.size() ==> #[trigger] rle::with_planes(
                data,
                p,
                color_offsets(transparency),
                n,
                4,
            )[i] == (if color_offsets(transparency).take(n).contains((i % 4) as usize) {
                p.data[i]
            } else {
                data[i]
            }),
    decreases n,
{
    let offsets = color_offsets(transparency);
    let count = p.width * p.height;
    assert(p.size() == count * 4);
    assert(0 <= count) by (nonlinear_arith)
        requires
            count == p.width * p.height,
    ;
    if n > 0 {
        lemma_with_planes(data, p, transparency, n - 1);
        let before = rle::with_planes(data, p, offsets, n - 1, 4);
        let after = rle::with_planes(data, p, offsets, n, 4);
        let o = offsets[n - 1] as int;
        let plane = pixels::plane(p, o);
        pixels::lemma_stored(before, o, 4, plane);
        assert forall|i: int| 0 <= i < p.size() implies #[trigger] after[i] == (if offsets.take(
            n,
        ).contains((i % 4) as usize) {
            p.data[i]
        } else {
            data[i]
        }) by {
            assert(offsets.take(n) =~= offsets.take(n - 1).push(offsets[n - 1]));
            if i % 4 == o {
                let j = i / 4;
                assert(i == o + 4 * j);
                assert(after[o + 4 * j] == plane[j]);
                assert(offsets.take(n)[n - 1] == (i % 4) as usize);
            } else {
                assert forall|j: int| 0 <= j < plane.len() implies i != #[trigger] (o + 4 * j) by {}
                assert(after[i] == before[i]);
                if offsets.take(n).contains((i % 4) as usize) {
                    let k = choose|k: int|
                        0 <= k < n && #[trigger] offsets.take(n)[k] == (i % 4) as usize;
                    assert(k < n - 1);
                    assert(offsets.take(n - 1)[k] == (i % 4) as usize);
                }
                if offsets.take(n - 1).contains((i % 4) as usize) {
                    let k = choose|k: int|
                        0 <= k < n - 1 && #[trigger] offsets.take(n - 1)[k] == (i % 4) as usize;
                    assert(offsets.take(n)[k] == (i % 4) as usize);
                }
            }
        }
    } else {
        assert(offsets.take(0) =~= Seq::<usize>::empty());
    }
}

/// The bytes of the pixels of a bitmap, without what lies behind them.
pub open spec fn without_rest(p: PixelDataView) -> PixelDataView {
    PixelDataView { data: p.data.take(p.size()), ..p }
}

/// The colour channels of a bitmap put together give the bitmap back. Without
/// its transparency every pixel is opaque.
pub proof fn lemma_colors_assembled(p: PixelDataView, transparency: bool)
    requires
        p.wf(),
        !transparency ==> !pixels::has_transparency(p),
    ensures
        ({
            let offsets = color_offsets(transparency);
            let data = rle::with_planes(
                bytes::zeros(p.size()),
                p,
                offsets,
                offsets.len() as int,
                4,
            );
            (if transparency {
                data
            } else {
                pixels::opaque(data, 4)
            }) == p.data.take(p.size())
        }),
{
    let offsets = color_offsets(transparency);
    let n = offsets.len() as int;
    let data = rle::with_planes(bytes::zeros(p.size()), p, offsets, n, 4);
    assert(0 <= p.size()) by (nonlinear_arith)
        requires
            p.size() == p.width * p.height * 4,
    ;
    lemma_with_planes(bytes::zeros(p.size()), p, transparency, n);
    let filled = if transparency {
        data
    } else {
        pixels::opaque(data, 4)
    };
    assert(offsets.take(n) =~= offsets);
    assert forall|i: int| 0 <= i < p.size() implies #[trigger] filled[i] == p.data[i] by {
        if transparency {
            if i % 4 == 0 {
                assert(offsets[1] == (i % 4) as usize);
            } else if i % 4 == 1 {
                assert(offsets[2] == (i % 4) as usize);
            } else if i % 4 == 2 {
                assert(offsets[3] == (i % 4) as usize);
            } else {
                assert(offsets[0] == (i % 4) as usize);
            }
        } else if i % 4 == 3 {
            assert(pixels::alpha_at(p, i / 4) == 255);
        } else {
            assert(offsets[i % 4] == (i % 4) as usize);
        }
    }
    assert(filled =~= p.data.take(p.size()));
}

/// The pixels of a mask as they come back: gray and opaque.
pub open spec fn gray_image(p: PixelDataView) -> PixelDataView {
    PixelDataView {
        data: Seq::new(
            p.size() as nat,
            |i: int|
                if i % 4 == 3 {
                    255u8
                } else {
                    p.data[i - i % 4]
                },
        ),
        ..p
    }
}

proof fn lemma_gray(p: PixelDataView)
    requires
        p.wf(),
    ensures
        decode::gray_pixels(
            p.width as int,
            p.height as int,
            pixels::stored(bytes::zeros(p.size()), 0, 4, pixels::plane(p, 0)),
        ) == gray_image(p),
{
    let zeros = bytes::zeros(p.size());
    let plane = pixels::plane(p, 0);
    let data = pixels::stored(zeros, 0, 4, plane);
    let count = p.width * p.height;
    assert(0 <= count) by (nonlinear_arith)
        requires
            count == p.width * p.height,
    ;
    assert(p.size() == count * 4);
    pixels::lemma_stored(zeros, 0, 4, plane);
    let gray = decode::gray_pixels(p.width as int, p.height as int, data);
    assert forall|i: int| 0 <= i < p.size() implies #[trigger] gray.data[i] == gray_image(
        p,
    ).data[i] by {
        let j = i / 4;
        assert(i - i % 4 == 0 + 4 * j);
        assert(data[0 + 4 * j] == plane[j]);
        assert(plane[j] == p.data[4 * j]);
    }
    assert(gray.data =~= gray_image(p).data);
}

/// A mask with its pixels as they come back, where it has any.
pub open spec fn with_gray_pixels(
    stored: LayerMaskView,
    m: LayerMaskView,
    use_image_data: bool,
) -> LayerMaskView {
    match channels::mask_image(m) {
        None => stored,
        Some(p) => if p.width == 0 || p.height == 0 {
            stored
        } else {
            decode::mask_with_pixels(stored, gray_image(p), use_image_data)
        },
    }
}

/// The pixels fit in memory.
pub open spec fn image_in_memory(p: Option<PixelDataView>) -> bool {
    p matches Some(p) ==> p.size() <= usize::MAX
}

/// The channel of a mask decodes to gray pixels, unless the memory limit is exceeded.
proof fn lemma_mask_decodes(
    stored: LayerMaskView,
    m: LayerMaskView,
    kind: Seq<char>,
    id: ChannelId,
    c: ChannelDataView,
    compress: bool,
    psb: bool,
    use_image_data: bool,
    budget: Option<usize>,
)
    requires
        channels::codes(c, channels::mask_plan(Some(m), id)[0], compress, psb),
        channels::mask_fits(m),
        decode::mask_bounds(stored) == channels::written_mask_bounds(m),
        mask::valid_box(channels::written_mask_bounds(m), psb),
        image_in_memory(channels::mask_image(m)),
        record_writer::channel_body(c).len() <= usize::MAX,
        stored_raw(c).data is Some,
    ensures
        match decode::decoded_mask(
            stored,
            kind,
            record_writer::channel_body(c),
            c.compression,
            8,
            psb,
            use_image_data,
            budget,
        ) {
            Err(e) => over_limit(e, budget),
            Ok((found, left)) => found == with_gray_pixels(stored, m, use_image_data) && (
            budget is None ==> left is None),
        },
{
    match channels::mask_image(m) {
        None => {},
        Some(p) => {
            if p.width != 0 && p.height != 0 {
                let size = p.width * p.height * 4;
                lemma_gray(p);
                match budget::charged(budget, size) {
                    Err(_) => {},
                    Ok(left) => {
                        lemma_channel_decodes(
                            c,
                            id,
                            p,
                            0,
                            compress,
                            psb,
                            bytes::zeros(size),
                            left,
                        );
                    },
                }
            }
        },
    }
}

pub proof fn lemma_mask_step(
    t: DecodeView,
    raw: RawDataView,
    m: LayerMaskView,
    c: ChannelDataView,
    compress: bool,
    psb: bool,
    width: int,
    height: int,
    use_image_data: bool,
)
    requires
        channels::codes(c, channels::mask_plan(Some(m), ChannelId::UserMask)[0], compress, psb),
        channels::mask_fits(m),
        t.mask is Some,
        decode::mask_bounds(t.mask->Some_0) == channels::written_mask_bounds(m),
        mask::valid_box(channels::written_mask_bounds(m), psb),
        image_in_memory(channels::mask_image(m)),
        record_writer::channel_body(c).len() <= usize::MAX,
        raw.bits_per_channel == 8,
        raw.large == psb,
    ensures
        decodes_to(
            decode::decode_step(t, raw, stored_raw(c), width, height, use_image_data),
            DecodeView {
                mask: Some(with_gray_pixels(t.mask->Some_0, m, use_image_data)),
                ..t
            },
            t.budget,
        ),
{
    reveal(decode::decode_step);
    if stored_raw(c).data is Some {
        lemma_mask_decodes(
            t.mask->Some_0,
            m,
            "mask"@,
            ChannelId::UserMask,
            c,
            compress,
            psb,
            use_image_data,
            t.budget,
        );
    } else {
        lemma_no_code(m, ChannelId::UserMask, c, compress, psb);
    }
}

pub proof fn lemma_real_mask_step(
    t: DecodeView,
    raw: RawDataView,
    m: LayerMaskView,
    c: ChannelDataView,
    compress: bool,
    psb: bool,
    width: int,
    height: int,
    use_image_data: bool,
)
    requires
        channels::codes(c, channels::mask_plan(Some(m), ChannelId::RealUserMask)[0], compress, psb),
        channels::mask_fits(m),
        t.real_mask is Some,
        decode::mask_bounds(t.real_mask->Some_0) == channels::written_mask_bounds(m),
        mask::valid_box(channels::written_mask_bounds(m), psb),
        image_in_memory(channels::mask_image(m)),
        record_writer::channel_body(c).len() <= usize::MAX,
        raw.bits_per_channel == 8,
        raw.large == psb,
    ensures
        decodes_to(
            decode::decode_step(t, raw, stored_raw(c), width, height, use_image_data),
            DecodeView {
                real_mask: Some(with_gray_pixels(t.real_mask->Some_0, m, use_image_data)),
                ..t
            },
            t.budget,
        ),
{
    reveal(decode::decode_step);
    if stored_raw(c).data is Some {
        lemma_mask_decodes(
            t.real_mask->Some_0,
            m,
            "real mask"@,
            ChannelId::RealUserMask,
            c,
            compress,
            psb,
            use_image_data,
            t.budget,
        );
    } else {
        lemma_no_code(m, ChannelId::RealUserMask, c, compress, psb);
    }
}

/// A mask whose channel has no code has no pixels.
proof fn lemma_no_code(
    m: LayerMaskView,
    id: ChannelId,
    c: ChannelDataView,
    compress: bool,
    psb: bool,
)
    requires
        channels::codes(c, channels::mask_plan(Some(m), id)[0], compress, psb),
        stored_raw(c).data is None,
    ensures
        channels::mask_image(m) matches Some(p) ==> p.width == 0 || p.height == 0,
{
    match channels::mask_image(m) {
        None => {},
        Some(p) => {
            if p.width != 0 && p.height != 0 {
                lemma_code_not_empty(p, 0, psb);
            }
        },
    }
}

} // verus!
