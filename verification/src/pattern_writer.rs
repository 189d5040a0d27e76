//! Writing patterns, and reading back what was written.

use vstd::prelude::*;

use crate::budget;
use crate::bytes;
use crate::decode;
use crate::error::ErrorView;
use crate::pattern;
use crate::pattern::{PatternChannelView, Rect};
use crate::pixels;
use crate::psd;
use crate::psd::{ColorMode, PatternInfo, PatternView, PixelData, PixelDataView};
use crate::reader;
use crate::reader::ReaderState;
use crate::rle;
use crate::roundtrip;
use crate::text;
use crate::writer;
use crate::writer::PsdWriter;

verus! {

broadcast use crate::bytes::group_bytes;

/// The pattern can be written: it has an area, no byte of it is missing, its
/// edges have coordinates, and its identifier is not too long.
pub open spec fn pattern_writable(p: PatternView) -> bool {
    &&& p.bounds.w > 0
    &&& p.bounds.h > 0
    &&& p.image().wf()
    &&& p.bounds.x + p.bounds.w <= u32::MAX
    &&& p.bounds.y + p.bounds.h <= u32::MAX
    &&& p.id.len() <= 255
}

/// The rectangle of a pattern.
pub open spec fn pattern_rect(p: PatternView) -> Rect {
    Rect {
        top: p.bounds.y,
        left: p.bounds.x,
        bottom: (p.bounds.y + p.bounds.h) as u32,
        right: (p.bounds.x + p.bounds.w) as u32,
    }
}

/// The bytes of a rectangle.
pub open spec fn rect_bytes(c: Rect) -> Seq<u8> {
    bytes::u32_bytes(c.top) + (bytes::u32_bytes(c.left) + (bytes::u32_bytes(c.bottom)
        + bytes::u32_bytes(c.right)))
}

/// The sample of a pixel that goes to a place for a channel, where one does: red,
/// green and blue come first, the opacity comes last.
pub open spec fn sample_for(i: int) -> Option<usize> {
    if i < 3 {
        Some(i as usize)
    } else if i == 25 {
        Some(3)
    } else {
        None
    }
}

/// The code of one sample of all pixels of a pattern.
pub open spec fn sample_code(p: PatternView, offset: usize) -> Seq<u8> {
    rle::rle_bytes(p.image(), seq![offset], false)
}

/// A channel of a pattern with its code.
pub open spec fn taken_place(c: Rect, code: Seq<u8>) -> Seq<u8> {
    bytes::u32_bytes(1) + (bytes::u32_bytes(writer::low32(code.len() as int + 23)) + (
    bytes::u32_bytes(8) + (rect_bytes(c) + (bytes::u16_bytes(8) + (seq![1u8] + code)))))
}

/// A place for a channel of a pattern.
#[verifier::opaque]
pub open spec fn place_bytes(p: PatternView, i: int) -> Seq<u8> {
    match sample_for(i) {
        None => bytes::u32_bytes(0),
        Some(offset) => taken_place(pattern_rect(p), sample_code(p, offset)),
    }
}

/// All places for channels of a pattern.
pub open spec fn place_pieces(p: PatternView) -> Seq<Seq<u8>> {
    Seq::new(26, |i: int| place_bytes(p, i))
}

/// The pixels of a pattern.
pub open spec fn image_body(p: PatternView) -> Seq<u8> {
    rect_bytes(pattern_rect(p)) + (bytes::u32_bytes(24) + bytes::concat(place_pieces(p)))
}

/// The inside of a pattern.
pub open spec fn pattern_body(p: PatternView) -> Seq<u8> {
    bytes::u32_bytes(1) + (bytes::u32_bytes(3) + (bytes::u16_bytes(bytes::i16_bits(p.x)) + (
    bytes::u16_bytes(bytes::i16_bits(p.y)) + (writer::padded_unicode_string_bytes(p.name) + (
    writer::pascal_bytes(p.id, 1) + (bytes::u32_bytes(3) + writer::section_bytes(
        image_body(p),
        1,
        false,
        false,
    )))))))
}

/// A pattern.
pub open spec fn pattern_bytes(p: PatternView) -> Seq<u8> {
    writer::section_bytes(pattern_body(p), 4, true, false)
}

fn write_rect(writer: &mut PsdWriter, c: Rect)
    requires
        old(writer).wf(),
    ensures
        writer::wrote(*old(writer), *final(writer), rect_bytes(c)),
{
    writer::write_uint32(writer, c.top);
    writer::write_uint32(writer, c.left);
    writer::write_uint32(writer, c.bottom);
    writer::write_uint32(writer, c.right);
    assert(writer.data() =~= old(writer).data() + rect_bytes(c));
}

fn code_sample(image: &PixelData, offset: usize) -> (code: Vec<u8>)
    requires
        image.deep_view().wf(),
        image.width > 0,
        image.height > 0,
        offset < 4,
    ensures
        code@ == rle::rle_bytes(image.deep_view(), seq![offset], false),
{
    let offsets: [usize; 1] = [offset];
    assert(offsets@ =~= seq![offset]);
    proof {
        rle::lemma_rle_fits(image.deep_view(), offsets@, false);
    }
    let room: usize = rle::rle_scratch_size(image.width, image.height, 1, false);
    let mut buffer: Vec<u8> = vec![0u8; room];
    match rle::write_data_rle(&mut buffer, image, &offsets, false) {
        Some(code) => code,
        None => Vec::new(),
    }
}

fn write_taken_place(writer: &mut PsdWriter, c: Rect, code: &Vec<u8>)
    requires
        old(writer).wf(),
    ensures
        writer::wrote(*old(writer), *final(writer), taken_place(c, code@)),
{
    let length: u64 = (code.len() as u64 % 0x1_0000_0000 + 23) % 0x1_0000_0000;
    assert(length == writer::low32(code@.len() as int + 23));
    writer::write_uint32(writer, 1);
    writer::write_uint32(writer, length as u32);
    writer::write_uint32(writer, 8);
    write_rect(writer, c);
    writer::write_uint16(writer, 8);
    writer::write_uint8(writer, 1);
    writer::write_bytes(writer, Some(code.as_slice()));
    assert(writer.data() =~= old(writer).data() + taken_place(c, code@));
}

fn write_places(writer: &mut PsdWriter, image: &PixelData, c: Rect, Ghost(p): Ghost<PatternView>)
    requires
        old(writer).wf(),
        image.deep_view() == p.image(),
        p.image().wf(),
        image.width > 0,
        image.height > 0,
        c == pattern_rect(p),
    ensures
        writer::wrote(*old(writer), *final(writer), bytes::concat(place_pieces(p))),
{
    let ghost pieces = place_pieces(p);
    let ghost base = writer.data();
    let mut i: usize = 0;
    assert(pieces.take(0) =~= Seq::<Seq<u8>>::empty());
    assert(base + bytes::concat(pieces.take(0)) =~= base);
    while i < 26
        invariant
            i <= 26,
            pieces == place_pieces(p),
            image.deep_view() == p.image(),
            p.image().wf(),
            image.width > 0,
            image.height > 0,
            c == pattern_rect(p),
            writer.wf(),
            writer.temp_buffer == old(writer).temp_buffer,
            writer::grew(*old(writer), *writer),
            writer.data() == base + bytes::concat(pieces.take(i as int)),
        decreases 26 - i,
    {
        reveal(place_bytes);
        let ghost before = writer.data();
        if i < 3 || i == 25 {
            let offset: usize = if i < 3 {
                i
            } else {
                3
            };
            let code: Vec<u8> = code_sample(image, offset);
            write_taken_place(writer, c, &code);
        } else {
            writer::write_uint32(writer, 0);
        }
        proof {
            assert(writer.data() =~= before + pieces[i as int]);
            bytes::lemma_concat_take(pieces, i as int);
            assert(base + bytes::concat(pieces.take(i + 1)) =~= before + pieces[i as int]);
        }
        i += 1;
    }
    assert(pieces.take(i as int) =~= pieces);
    assert(writer.data().len() == writer.offset);
    assert(base.len() == old(writer).offset);
}

fn write_pattern_image(writer: &mut PsdWriter, pattern: &PatternInfo)
    requires
        old(writer).wf(),
        pattern_writable(pattern.deep_view()),
    ensures
        writer::wrote(
            *old(writer),
            *final(writer),
            writer::section_bytes(image_body(pattern.deep_view()), 1, false, false),
        ),
{
    let ghost p = pattern.deep_view();
    let image: PixelData = PixelData {
        width: pattern.bounds.w,
        height: pattern.bounds.h,
        data: psd::copy_bytes(&pattern.data),
    };
    let c: Rect = Rect {
        top: pattern.bounds.y,
        left: pattern.bounds.x,
        bottom: pattern.bounds.y + pattern.bounds.h,
        right: pattern.bounds.x + pattern.bounds.w,
    };
    let ghost base = writer.data();
    let ghost body = image_body(p);
    assert(base.len() == writer.offset);
    let start: usize = writer::begin_section(writer, false);
    let ghost open = writer.data();
    write_rect(writer, c);
    writer::write_uint32(writer, 24);
    write_places(writer, &image, c, Ghost(p));
    assert(writer.data() =~= open + body);
    assert(writer.data().len() == writer.offset);
    writer::end_section(writer, start, 1, false);
    proof {
        writer::lemma_section_written(base, body, 1, false, false);
        assert(writer.data().len() == writer.offset);
    }
}

/// Writes a pattern.
pub fn write_pattern(writer: &mut PsdWriter, pattern: &PatternInfo)
    requires
        old(writer).wf(),
        pattern_writable(pattern.deep_view()),
    ensures
        writer::wrote(*old(writer), *final(writer), pattern_bytes(pattern.deep_view())),
{
    let ghost p = pattern.deep_view();
    let ghost base = writer.data();
    let ghost body = pattern_body(p);
    assert(base.len() == writer.offset);
    let start: usize = writer::begin_section(writer, false);
    let ghost open = writer.data();
    writer::write_uint32(writer, 1);
    writer::write_uint32(writer, 3);
    writer::write_int16(writer, pattern.x);
    writer::write_int16(writer, pattern.y);
    writer::write_unicode_string_with_padding(writer, pattern.name.as_str());
    writer::write_pascal_string(writer, pattern.id.as_str(), 1);
    writer::write_uint32(writer, 3);
    write_pattern_image(writer, pattern);
    assert(writer.data() =~= open + body);
    assert(writer.data().len() == writer.offset);
    writer::end_section(writer, start, 4, true);
    proof {
        writer::lemma_section_written(base, body, 4, true, false);
        assert(writer.data().len() == writer.offset);
    }
}

/// A pattern as it comes back: opaque, with an ASCII identifier, and without
/// bytes behind its pixels.
pub open spec fn stored_pattern(p: PatternView) -> PatternView {
    PatternView {
        id: roundtrip::ascii_only(p.id),
        data: Seq::new(
            (p.bounds.w * p.bounds.h * 4) as nat,
            |i: int|
                if i % 4 == 3 {
                    255u8
                } else {
                    p.data[i]
                },
        ),
        ..p
    }
}

proof fn lemma_rect_reads_back(r: ReaderState, c: Rect)
    requires
        bytes::holds_at(r.buffer, r.offset, rect_bytes(c)),
        c.valid(r.large),
    ensures
        pattern::get_rect(r) == Ok::<(Rect, ReaderState), ErrorView>((c, r.at(r.offset + 16))),
        rect_bytes(c).len() == 16,
{
    let o = r.offset;
    let tail_3 = bytes::u32_bytes(c.bottom) + bytes::u32_bytes(c.right);
    let tail_2 = bytes::u32_bytes(c.left) + tail_3;
    bytes::lemma_holds_at_split(r.buffer, o, bytes::u32_bytes(c.top), tail_2);
    bytes::lemma_holds_at_split(r.buffer, o + 4, bytes::u32_bytes(c.left), tail_3);
    bytes::lemma_holds_at_split(
        r.buffer,
        o + 8,
        bytes::u32_bytes(c.bottom),
        bytes::u32_bytes(c.right),
    );
    roundtrip::law_uint32_round_trip(r, c.top);
    roundtrip::law_uint32_round_trip(r.at(o + 4), c.left);
    roundtrip::law_uint32_round_trip(r.at(o + 8), c.bottom);
    roundtrip::law_uint32_round_trip(r.at(o + 12), c.right);
}

/// A channel as it is stored.
pub open spec fn stored_channel(c: Rect, code: Seq<u8>) -> PatternChannelView {
    PatternChannelView { rect: c, depth: 8, depth2: 8, compression: 1, data: code }
}

proof fn lemma_place_reads_back(r: ReaderState, c: Rect, code: Seq<u8>)
    requires
        r.buffer.len() <= usize::MAX,
        c.valid(r.large),
        code.len() + 23 < 0x1_0000_0000,
        bytes::holds_at(r.buffer, r.offset, taken_place(c, code)),
    ensures
        pattern::get_pattern_channel(r) == Ok::<
            (Option<PatternChannelView>, ReaderState),
            ErrorView,
        >((Some(stored_channel(c, code)), r.at(r.offset + taken_place(c, code).len()))),
{
    reveal(pattern::get_pattern_channel);
    let o = r.offset;
    let length = (code.len() + 23) as u32;
    assert(writer::low32(code.len() as int + 23) == length);
    let t6 = seq![1u8] + code;
    let t5 = bytes::u16_bytes(8) + t6;
    let t4 = rect_bytes(c) + t5;
    let t3 = bytes::u32_bytes(8) + t4;
    let t2 = bytes::u32_bytes(length) + t3;
    assert(rect_bytes(c).len() == 16);
    bytes::lemma_holds_at_split(r.buffer, o, bytes::u32_bytes(1), t2);
    bytes::lemma_holds_at_split(r.buffer, o + 4, bytes::u32_bytes(length), t3);
    bytes::lemma_holds_at_split(r.buffer, o + 8, bytes::u32_bytes(8), t4);
    bytes::lemma_holds_at_split(r.buffer, o + 12, rect_bytes(c), t5);
    bytes::lemma_holds_at_split(r.buffer, o + 28, bytes::u16_bytes(8), t6);
    bytes::lemma_holds_at_split(r.buffer, o + 30, seq![1u8], code);
    roundtrip::law_uint32_round_trip(r, 1);
    roundtrip::law_uint32_round_trip(r.at(o + 4), length);
    roundtrip::law_uint32_round_trip(r.at(o + 8), 8);
    lemma_rect_reads_back(r.at(o + 12), c);
    roundtrip::law_uint16_round_trip(r.at(o + 28), 8);
    roundtrip::law_uint8_round_trip(r.at(o + 30), 1);
    roundtrip::law_bytes_round_trip(r.at(o + 31), code);
}

/// The samples of one channel of a bitmap as those of the first channel.
spec fn shifted(p: PixelDataView, offset: int) -> PixelDataView {
    PixelDataView { data: Seq::new(p.data.len(), |i: int| p.data[i + offset]), ..p }
}

proof fn lemma_shifted(p: PixelDataView, offset: usize)
    requires
        p.wf(),
        offset < 4,
    ensures
        rle::rle_bytes(shifted(p, offset as int), seq![0usize], false) == rle::rle_bytes(
            p,
            seq![offset],
            false,
        ),
        pixels::plane(shifted(p, offset as int), 0) == pixels::plane(p, offset as int),
{
    let q = shifted(p, offset as int);
    assert forall|y: int| 0 <= y < p.height implies #[trigger] pixels::plane_row(q, 0, y)
        == pixels::plane_row(p, offset as int, y) by {
        assert forall|x: int| 0 <= x < p.width implies #[trigger] pixels::plane_row(q, 0, y)[x]
            == pixels::plane_row(p, offset as int, y)[x] by {
            assert(0 <= y * p.width && y * p.width + p.width <= p.width * p.height)
                by (nonlinear_arith)
                requires
                    0 <= y,
                    y + 1 <= p.height,
            ;
        }
        assert(pixels::plane_row(q, 0, y) =~= pixels::plane_row(p, offset as int, y));
    }
    assert(rle::channel_rows(q, 0) =~= rle::channel_rows(p, offset as int));
    assert(seq![0usize].drop_last() =~= Seq::<usize>::empty());
    assert(seq![offset].drop_last() =~= Seq::<usize>::empty());
    assert(rle::all_rows(q, seq![0usize].drop_last()) =~= Seq::<Seq<u8>>::empty());
    assert(rle::all_rows(p, seq![offset].drop_last()) =~= Seq::<Seq<u8>>::empty());
    assert(rle::all_rows(q, seq![0usize]) =~= rle::all_rows(p, seq![offset]));
    assert(pixels::plane(q, 0) =~= pixels::plane(p, offset as int));
}

/// The budget covers the scratch memory that it takes to decode a channel.
pub open spec fn scratch_fits(p: PatternView, budget: Option<usize>) -> bool {
    p.bounds.w * p.bounds.h + 4 * p.bounds.h <= budget::available(budget)
}

/// The code of one sample of all pixels is read back as these samples.
pub proof fn lemma_samples_read_back(p: PatternView, offset: usize, budget: Option<usize>)
    requires
        p.image().wf(),
        offset < 4,
        rle::lengths_fit(p.bounds.w as int, false),
        scratch_fits(p, budget),
        pattern_writable(p),
        sample_code(p, offset).len() <= usize::MAX,
    ensures
        pattern::pattern_samples(
            stored_channel(pattern_rect(p), sample_code(p, offset)),
            budget,
        ) == Ok::<Seq<u8>, ErrorView>(pixels::plane(p.image(), offset as int)),
{
    let code = sample_code(p, offset);
    let q = shifted(p.image(), offset as int);
    let plane = pixels::plane(p.image(), offset as int);
    let n = p.bounds.w * p.bounds.h;
    assert(0 <= n) by (nonlinear_arith)
        requires
            n == p.bounds.w * p.bounds.h,
    ;
    lemma_shifted(p.image(), offset);
    match budget::charged(budget, n) {
        Err(_) => {},
        Ok(left) => {
            let r = decode::channel_reader(code, left);
            bytes::lemma_piece_holds(code, Seq::empty(), code, Seq::empty());
            assert(1 * p.bounds.h == p.bounds.h);
            rle::law_rle_round_trip(r, bytes::zeros(n), q, seq![0usize], 1, false);
            let all = rle::with_planes(bytes::zeros(n), q, seq![0usize], 1, 1);
            assert(rle::with_planes(bytes::zeros(n), q, seq![0usize], 0, 1) == bytes::zeros(n));
            assert(all == pixels::stored(bytes::zeros(n), 0, 1, plane));
            pixels::lemma_stored(bytes::zeros(n), 0, 1, plane);
            assert forall|i: int| 0 <= i < n implies #[trigger] all[i] == plane[i] by {
                assert(pixels::stored(bytes::zeros(n), 0, 1, plane)[0 + 1 * i] == plane[i]);
            }
            assert(all =~= plane);
        },
    }
}

proof fn lemma_placed_whole(data: Seq<u8>, samples: Seq<u8>, n: int, w: int, offset: int)
    requires
        w > 0,
        0 <= n <= samples.len(),
        0 <= offset,
    ensures
        pattern::placed(data, samples, n, w, w, 0, 0, offset) == pixels::stored(
            data,
            offset,
            4,
            samples.take(n),
        ),
    decreases n,
{
    if n > 0 {
        lemma_placed_whole(data, samples, n - 1, w, offset);
        assert(samples.take(n).drop_last() =~= samples.take(n - 1));
        vstd::arithmetic::div_mod::lemma_fundamental_div_mod(n - 1, w);
        assert((n - 1) / w * w == w * ((n - 1) / w)) by (nonlinear_arith);
        assert(pattern::place_of(n - 1, w, w, 0, 0) == 4 * (n - 1));
    } else {
        assert(samples.take(0) =~= Seq::<u8>::empty());
    }
}

/// The pixels of a pattern once its first `k` samples are read back.
spec fn pixels_after(p: PatternView, k: int) -> Seq<u8>
    decreases k,
{
    if k <= 0 {
        pixels::opaque_black(p.bounds.w * p.bounds.h * 4)
    } else {
        pixels::stored(pixels_after(p, k - 1), k - 1, 4, pixels::plane(p.image(), k - 1))
    }
}

proof fn lemma_pixels_after(p: PatternView, k: int)
    requires
        0 <= k <= 3,
        p.image().wf(),
    ensures
        pixels_after(p, k).len() == p.bounds.w * p.bounds.h * 4,
        forall|i: int|
            0 <= i < p.bounds.w * p.bounds.h * 4 ==> #[trigger] pixels_after(p, k)[i] == (if i % 4
                < k {
                p.data[i]
            } else if i % 4 == 3 {
                255u8
            } else {
                0u8
            }),
    decreases k,
{
    let n = p.bounds.w * p.bounds.h;
    assert(0 <= n) by (nonlinear_arith)
        requires
            n == p.bounds.w * p.bounds.h,
    ;
    assert(p.bounds.w * p.bounds.h * 4 == n * 4);
    if k > 0 {
        lemma_pixels_after(p, k - 1);
        let before = pixels_after(p, k - 1);
        let plane = pixels::plane(p.image(), k - 1);
        let after = pixels_after(p, k);
        pixels::lemma_stored(before, k - 1, 4, plane);
        assert forall|i: int| 0 <= i < n * 4 implies #[trigger] after[i] == (if i % 4 < k {
            p.data[i]
        } else if i % 4 == 3 {
            255u8
        } else {
            0u8
        }) by {
            if i % 4 == k - 1 {
                let j = i / 4;
                assert(i == (k - 1) + 4 * j);
                assert(after[(k - 1) + 4 * j] == plane[j]);
            } else {
                assert forall|j: int| 0 <= j < plane.len() implies i != #[trigger] ((k - 1) + 4
                    * j) by {}
                assert(after[i] == before[i]);
            }
        }
    }
}

proof fn lemma_step(p: PatternView, ch: int, budget: Option<usize>)
    requires
        pattern_writable(p),
        0 <= ch < 3,
        rle::lengths_fit(p.bounds.w as int, false),
        scratch_fits(p, budget),
        sample_code(p, ch as usize).len() <= usize::MAX,
    ensures
        pattern::pattern_step(
            pixels_after(p, ch),
            stored_channel(pattern_rect(p), sample_code(p, ch as usize)),
            pattern_rect(p),
            ColorMode::Rgb,
            Seq::empty(),
            ch,
            budget,
        ) == Ok::<Seq<u8>, ErrorView>(pixels_after(p, ch + 1)),
{
    reveal(pattern::pattern_step);
    let plane = pixels::plane(p.image(), ch);
    let c = pattern_rect(p);
    lemma_samples_read_back(p, ch as usize, budget);
    assert(plane.take(plane.len() as int) =~= plane);
    assert(0 <= p.bounds.w * p.bounds.h) by (nonlinear_arith);
    assert(c.width() == p.bounds.w && c.height() == p.bounds.h);
    lemma_placed_whole(
        pixels_after(p, ch),
        plane,
        plane.len() as int,
        p.bounds.w as int,
        ch,
    );
}

/// How many of the first places for channels are taken.
spec fn taken_before(n: int) -> int {
    if n <= 3 {
        n
    } else if n <= 25 {
        3
    } else {
        4
    }
}

proof fn lemma_places_read_back(r: ReaderState, p: PatternView, n: int)
    requires
        r.buffer.len() <= usize::MAX,
        pattern_writable(p),
        pattern_rect(p).valid(r.large),
        rle::lengths_fit(p.bounds.w as int, false),
        scratch_fits(p, r.budget),
        bytes::concat(place_pieces(p)).len() < 0x1_0000_0000,
        bytes::holds_at(r.buffer, r.offset, bytes::concat(place_pieces(p))),
        0 <= n <= 26,
    ensures
        pattern::get_pattern_channels(
            r,
            pixels::opaque_black(p.bounds.w * p.bounds.h * 4),
            n,
            pattern_rect(p),
            ColorMode::Rgb,
            Seq::empty(),
        ) == Ok::<((Seq<u8>, int), ReaderState), ErrorView>(
            (
                (
                    pixels_after(
                        p,
                        if n <= 3 {
                            n
                        } else {
                            3
                        },
                    ),
                    taken_before(n),
                ),
                r.at(r.offset + bytes::concat(place_pieces(p).take(n)).len()),
            ),
        ),
    decreases n,
{
    let pieces = place_pieces(p);
    let c = pattern_rect(p);
    if n == 0 {
        assert(pieces.take(0) =~= Seq::<Seq<u8>>::empty());
    } else {
        lemma_places_read_back(r, p, n - 1);
        bytes::lemma_holds_at_piece(r.buffer, r.offset, pieces, n - 1);
        bytes::lemma_concat_take(pieces, n - 1);
        bytes::lemma_concat_prefix(pieces, n);
        bytes::lemma_holds_at_room(r.buffer, r.offset, bytes::concat(pieces));
        let r1 = r.at(r.offset + bytes::concat(pieces.take(n - 1)).len());
        assert(pieces[n - 1] == place_bytes(p, n - 1));
        lemma_one_place(r1, p, n - 1);
        if n - 1 < 3 {
            lemma_step(p, n - 1, r.budget);
        } else if n - 1 == 25 {
            lemma_opacity_passed_over(p, r.budget);
        }
    }
}

proof fn lemma_opacity_passed_over(p: PatternView, budget: Option<usize>)
    ensures
        pattern::pattern_step(
            pixels_after(p, 3),
            stored_channel(pattern_rect(p), sample_code(p, 3)),
            pattern_rect(p),
            ColorMode::Rgb,
            Seq::empty(),
            3,
            budget,
        ) == Ok::<Seq<u8>, ErrorView>(pixels_after(p, 3)),
{
    reveal(pattern::pattern_step);
}

proof fn lemma_one_place(r: ReaderState, p: PatternView, i: int)
    requires
        r.buffer.len() <= usize::MAX,
        pattern_rect(p).valid(r.large),
        place_bytes(p, i).len() < 0x1_0000_0000,
        0 <= i < 26,
        bytes::holds_at(r.buffer, r.offset, place_bytes(p, i)),
    ensures
        pattern::get_pattern_channel(r) == Ok::<
            (Option<PatternChannelView>, ReaderState),
            ErrorView,
        >(
            (
                match sample_for(i) {
                    None => None,
                    Some(offset) => Some(
                        stored_channel(pattern_rect(p), sample_code(p, offset)),
                    ),
                },
                r.at(r.offset + place_bytes(p, i).len()),
            ),
        ),
        sample_for(i) matches Some(offset) ==> sample_code(p, offset).len() <= usize::MAX,
{
    reveal(place_bytes);
    bytes::lemma_holds_at_room(r.buffer, r.offset, place_bytes(p, i));
    match sample_for(i) {
        None => {
            reveal(pattern::get_pattern_channel);
            roundtrip::law_uint32_round_trip(r, 0);
        },
        Some(offset) => {
            let c = pattern_rect(p);
            let code = sample_code(p, offset);
            assert(taken_place(c, code).len() == code.len() + 31);
            lemma_place_reads_back(r, c, code);
        },
    }
}

proof fn lemma_image_reads_back(r: ReaderState, p: PatternView)
    requires
        r.buffer.len() <= usize::MAX,
        pattern_writable(p),
        pattern_rect(p).valid(r.large),
        rle::lengths_fit(p.bounds.w as int, false),
        p.bounds.w * p.bounds.h * 5 + 4 * p.bounds.h <= budget::available(r.budget),
        image_body(p).len() < 0x1_0000_0000,
        bytes::holds_at(
            r.buffer,
            r.offset,
            bytes::u32_bytes(3) + writer::section_bytes(image_body(p), 1, false, false),
        ),
    ensures
        pattern::get_pattern_image(r, ColorMode::Rgb, Seq::empty()) matches Ok(
            ((rect, data), after),
        ) && rect == pattern_rect(p) && data == stored_pattern(p).data && after == (ReaderState {
            budget: budget::charged(r.budget, p.bounds.w * p.bounds.h * 4)->Ok_0,
            ..r.at(after.offset)
        }),
{
    reveal(pattern::get_pattern_image);
    let o = r.offset;
    let section = writer::section_bytes(image_body(p), 1, false, false);
    let c = pattern_rect(p);
    let size = p.bounds.w * p.bounds.h * 4;
    let places = bytes::concat(place_pieces(p));
    assert(0 <= p.bounds.w * p.bounds.h) by (nonlinear_arith);
    assert(p.bounds.w * p.bounds.h * 5 == p.bounds.w * p.bounds.h * 4 + p.bounds.w * p.bounds.h)
        by (nonlinear_arith);
    bytes::lemma_holds_at_split(r.buffer, o, bytes::u32_bytes(3), section);
    roundtrip::law_uint32_round_trip(r, 3);
    roundtrip::law_section_round_trip(r.at(o + 4), image_body(p), 1, false, false, false);
    let r2 = r.at(o + 8);
    bytes::lemma_holds_at_split(
        r.buffer,
        o + 8,
        rect_bytes(c),
        bytes::u32_bytes(24) + places,
    );
    lemma_rect_reads_back(r2, c);
    bytes::lemma_holds_at_split(r.buffer, o + 24, bytes::u32_bytes(24), places);
    roundtrip::law_uint32_round_trip(r.at(o + 24), 24);
    let left = budget::charged(r.budget, size)->Ok_0;
    let r4 = ReaderState { budget: left, ..r.at(o + 28) };
    lemma_places_read_back(r4, p, 26);
    lemma_pixels_after(p, 3);
    assert(pixels_after(p, 3) =~= stored_pattern(p).data);
}

/// A pattern is read where it was written.
pub proof fn law_pattern_round_trip(r: ReaderState, p: PatternView)
    requires
        r.buffer.len() <= usize::MAX,
        pattern_writable(p),
        pattern_rect(p).valid(r.large),
        rle::lengths_fit(p.bounds.w as int, false),
        p.bounds.w * p.bounds.h * 5 + 4 * p.bounds.h <= budget::available(r.budget),
        text::utf16(p.name).len() + 1 < 0x1_0000_0000,
        pattern_bytes(p).len() < 0x1_0000_0000,
        bytes::holds_at(r.buffer, r.offset, pattern_bytes(p)),
    ensures
        pattern::get_pattern(r) == Ok::<(PatternView, ReaderState), ErrorView>(
            (
                stored_pattern(p),
                ReaderState {
                    budget: budget::charged(r.budget, p.bounds.w * p.bounds.h * 4)->Ok_0,
                    ..r.at(r.offset + pattern_bytes(p).len())
                },
            ),
        ),
{
    let body = pattern_body(p);
    let o = r.offset + 4;
    let image = bytes::u32_bytes(3) + writer::section_bytes(image_body(p), 1, false, false);
    let id = writer::pascal_bytes(p.id, 1);
    let name = writer::padded_unicode_string_bytes(p.name);
    let x = bytes::u16_bytes(bytes::i16_bits(p.x));
    let y = bytes::u16_bytes(bytes::i16_bits(p.y));
    let named = name + (id + image);
    let t4 = y + named;
    let t3 = x + t4;
    let t2 = bytes::u32_bytes(3) + t3;
    let pad = bytes::padding(body.len() as int, 4);
    assert(0 <= pad < 4);
    roundtrip::law_section_round_trip(r, body, 4, true, false, false);
    lemma_pattern_length(r, body);
    bytes::lemma_holds_at_split(r.buffer, o, bytes::u32_bytes(1), t2);
    bytes::lemma_holds_at_split(r.buffer, o + 4, bytes::u32_bytes(3), t3);
    bytes::lemma_holds_at_split(r.buffer, o + 8, x, t4);
    bytes::lemma_holds_at_split(r.buffer, o + 10, y, named);
    let r0 = r.at(o);
    roundtrip::law_uint32_round_trip(r0, 1);
    roundtrip::law_uint32_round_trip(r0.at(o + 4), 3);
    roundtrip::law_int16_round_trip(r0.at(o + 8), p.x);
    roundtrip::law_int16_round_trip(r0.at(o + 10), p.y);
    lemma_named_reads_back(r0.at(o + 12), p);
}

proof fn lemma_named_reads_back(r: ReaderState, p: PatternView)
    requires
        r.buffer.len() <= usize::MAX,
        pattern_writable(p),
        pattern_rect(p).valid(r.large),
        rle::lengths_fit(p.bounds.w as int, false),
        p.bounds.w * p.bounds.h * 5 + 4 * p.bounds.h <= budget::available(r.budget),
        text::utf16(p.name).len() + 1 < 0x1_0000_0000,
        image_body(p).len() < 0x1_0000_0000,
        bytes::holds_at(
            r.buffer,
            r.offset,
            writer::padded_unicode_string_bytes(p.name) + (writer::pascal_bytes(p.id, 1) + (
            bytes::u32_bytes(3) + writer::section_bytes(image_body(p), 1, false, false))),
        ),
    ensures
        pattern::get_named_image(r, ColorMode::Rgb, p.x, p.y) matches Ok((q, after)) && q
            == stored_pattern(p) && after == (ReaderState {
            budget: budget::charged(r.budget, p.bounds.w * p.bounds.h * 4)->Ok_0,
            ..r.at(after.offset)
        }),
{
    let image = bytes::u32_bytes(3) + writer::section_bytes(image_body(p), 1, false, false);
    let id = writer::pascal_bytes(p.id, 1);
    let name = writer::padded_unicode_string_bytes(p.name);
    bytes::lemma_holds_at_split(r.buffer, r.offset, name, id + image);
    bytes::lemma_holds_at_split(r.buffer, r.offset + name.len(), id, image);
    roundtrip::law_padded_unicode_string_round_trip(r, p.name);
    roundtrip::law_pascal_string_round_trip(r.at(r.offset + name.len()), p.id, 1);
    lemma_image_reads_back(r.at(r.offset + name.len() + id.len()), p);
}

proof fn lemma_pattern_length(r: ReaderState, body: Seq<u8>)
    requires
        bytes::holds_at(r.buffer, r.offset, writer::section_bytes(body, 4, true, false)),
        body.len() + bytes::padding(body.len() as int, 4) < 0x1_0000_0000,
    ensures
        reader::get_u32(r) == Ok::<(u32, ReaderState), ErrorView>(
            (
                (body.len() + bytes::padding(body.len() as int, 4)) as u32,
                r.at(r.offset + 4),
            ),
        ),
        bytes::padding(body.len() + bytes::padding(body.len() as int, 4), 4) == 0,
{
    let pad = bytes::padding(body.len() as int, 4);
    let length = (body.len() + pad) as u32;
    let head = writer::section_prefix(false) + bytes::u32_bytes(length);
    assert(writer::low32(body.len() + pad) == length);
    bytes::lemma_holds_at_split(r.buffer, r.offset, head + body, bytes::zeros(pad));
    bytes::lemma_holds_at_split(r.buffer, r.offset, head, body);
    assert(head =~= bytes::u32_bytes(length));
    roundtrip::law_uint32_round_trip(r, length);
}

} // verus!
