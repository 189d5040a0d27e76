//! What a reader passes over on its way to the next part.

use vstd::prelude::*;

use crate::composite;
use crate::document;
use crate::error::ErrorView;
use crate::header::Header;
use crate::number_laws;
use crate::number_laws::{moved_to, number16, spells};
use crate::psd::{ColorMode, Compression, PaletteColor};
use crate::raster_laws;
use crate::reader;
use crate::reader::ReaderState;
use crate::records;
use crate::rle;

verus! {

broadcast use crate::bytes::group_bytes;

/// Skipping bytes moves the cursor by as many, and changes nothing else.
pub proof fn law_skipped(r: ReaderState, count: int)
    requires
        0 <= r.offset,
        0 <= count,
        r.offset + count <= usize::MAX,
    ensures
        moved_to(r, r.skipped(count), r.offset + count),
{
}

/// The zeros before an end are passed over, and nothing else.
pub proof fn law_zeros_passed(r: ReaderState, end: int)
    requires
        0 <= r.offset <= end <= r.buffer.len(),
    ensures
        document::past_zeros(r, end) matches Ok((_, after)) && {
            &&& moved_to(r, after, after.offset)
            &&& r.offset <= after.offset <= end
            &&& forall|i: int| r.offset <= i < after.offset ==> #[trigger] r.buffer[i] == 0
            &&& after.offset < end ==> r.buffer[after.offset] != 0
        },
    decreases end - r.offset,
{
    number_laws::law_short_numbers_read(r);
    if r.offset < end && r.buffer[r.offset] == 0 {
        law_zeros_passed(r.at(r.offset + 1), end);
    }
}

/// The bytes spell the start of a block.
pub open spec fn block_starts(s: Seq<u8>, at: int) -> bool {
    spells(s, at, seq!['8', 'B', 'I', 'M']) || spells(s, at, seq!['8', 'B', '6', '4'])
}

/// Behind the name of a layer all is passed over up to the first block, or up to the last
/// four bytes before an end.
pub proof fn law_junk_passed(r: ReaderState, end: int)
    requires
        0 <= r.offset,
        end <= r.buffer.len(),
    ensures
        ({
            let after = records::past_junk(r, end);
            &&& moved_to(r, after, after.offset)
            &&& r.offset <= after.offset
            &&& forall|i: int|
                r.offset <= i < after.offset ==> !#[trigger] block_starts(r.buffer, i)
            &&& r.offset < after.offset ==> 4 <= end - after.offset
            &&& end - after.offset <= 4 || block_starts(r.buffer, after.offset)
        }),
    decreases end - r.offset,
{
    raster_laws::law_block_start(r.buffer, r.offset);
    if end - r.offset > 4 && !reader::block_signature_at(r.buffer, r.offset) {
        let next = r.at(r.offset + 1);
        law_junk_passed(next, end);
        let after = records::past_junk(next, end);
        assert(records::past_junk(r, end) == after);
        assert(!block_starts(r.buffer, r.offset));
        assert forall|i: int| r.offset <= i < after.offset implies !#[trigger] block_starts(
            r.buffer,
            i,
        ) by {
            if i > r.offset {
                assert(!block_starts(next.buffer, i));
            }
        }
    } else if end - r.offset > 4 {
        assert(block_starts(r.buffer, r.offset));
    }
}

/// The number of the way in which a channel is stored is one of 0 to 3 at the cursor, or
/// else one byte behind it; where neither is one the channel is refused.
pub proof fn law_compression_found(r: ReaderState)
    requires
        0 <= r.offset,
        r.offset + 3 <= r.buffer.len(),
    ensures
        ({
            let here = number16(r.buffer, r.offset);
            let behind = number16(r.buffer, r.offset + 1);
            match records::get_compression(r) {
                Ok((v, after)) => if here <= 3 {
                    v == here && moved_to(r, after, r.offset + 2)
                } else {
                    v == behind <= 3 && moved_to(r, after, r.offset + 3)
                },
                Err(e) => here > 3 && behind > 3 && e is StrictViolation,
            }
        }),
{
    number_laws::lemma_at(r.buffer, r.offset);
    number_laws::lemma_at(r.buffer, r.offset + 1);
    assert(r.at(r.offset + 2).at(r.offset + 1) == r.at(r.offset + 1));
    assert(r.at(r.offset + 1).at(r.offset + 3).at(r.offset) == r.at(r.offset));
}

/// A run-length coded channel beyond those that a pixel has room for, or with a place that
/// a pixel does not have, leaves the pixels as they are.
pub proof fn law_extra_channel(
    r: ReaderState,
    data: Seq<u8>,
    lengths: Seq<usize>,
    channels: Seq<usize>,
    n: int,
    width: int,
    height: int,
    depth: u32,
    step: int,
)
    requires
        1 <= step,
        1 <= n <= channels.len(),
        n > step || channels[n - 1] >= step,
    ensures
        match rle::get_channels(
            r,
            Some(data),
            lengths,
            channels,
            n - 1,
            width,
            height,
            depth,
            step,
        ) {
            Ok((before, _)) => rle::get_channels(
                r,
                Some(data),
                lengths,
                channels,
                n,
                width,
                height,
                depth,
                step,
            ) matches Ok((found, _)) && found == before,
            Err(e) => rle::get_channels(
                r,
                Some(data),
                lengths,
                channels,
                n,
                width,
                height,
                depth,
                step,
            ) matches Err(f) && f == e,
        },
{
}

/// An image in a colour mode that cannot be shown is refused, and the error names the mode.
pub proof fn law_mode_refused(
    r: ReaderState,
    h: Header,
    image: Seq<u8>,
    compression: Compression,
    palette: Option<Seq<PaletteColor>>,
)
    ensures
        ({
            let found = composite::get_mode_image(r, h, image, compression, palette);
            let start = "Color mode not supported: "@;
            match h.color_mode {
                ColorMode::Cmyk => found matches Err(e) && e == ErrorView::StrictViolation(
                    start + "Cmyk"@,
                ),
                ColorMode::Multichannel => found matches Err(e) && e == ErrorView::StrictViolation(
                    start + "Multichannel"@,
                ),
                ColorMode::Duotone => found matches Err(e) && e == ErrorView::StrictViolation(
                    start + "Duotone"@,
                ),
                ColorMode::Lab => found matches Err(e) && e == ErrorView::StrictViolation(
                    start + "Lab"@,
                ),
                _ => true,
            }
        }),
{
    reveal(composite::get_mode_image);
}

} // verus!
