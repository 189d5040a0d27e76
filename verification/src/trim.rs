//! Cutting the transparent border off a bitmap.

use vstd::prelude::*;

use crate::helpers::Bounds;
use crate::pixels;
use crate::psd::{PixelData, PixelDataView};

verus! {

/// The opacity of the pixel in a column and a row.
pub open spec fn alpha_of(p: PixelDataView, x: int, y: int) -> u8 {
    pixels::alpha_at(p, y * p.width + x)
}

/// The pixels of a row from column `left` to column `right` are fully transparent.
pub open spec fn row_empty(p: PixelDataView, y: int, left: int, right: int) -> bool {
    forall|x: int| left <= x < right ==> #[trigger] alpha_of(p, x, y) == 0
}

/// The pixels of a column from row `top` to row `bottom` are fully transparent.
pub open spec fn col_empty(p: PixelDataView, x: int, top: int, bottom: int) -> bool {
    forall|y: int| top <= y < bottom ==> #[trigger] alpha_of(p, x, y) == 0
}

proof fn lemma_pixel_index(width: int, height: int, x: int, y: int)
    requires
        0 <= x < width,
        0 <= y < height,
    ensures
        0 <= y * width,
        0 <= y * width + x < width * height,
{
    assert(0 <= y * width && y * width + width <= width * height) by (nonlinear_arith)
        requires
            0 <= y,
            y + 1 <= height,
            0 <= width,
    ;
}

/// Whether part of a row is fully transparent.
pub fn is_row_empty(data: &PixelData, y: usize, left: usize, right: usize) -> (empty: bool)
    requires
        data.deep_view().wf(),
        y < data.height,
        right <= data.width,
    ensures
        empty == row_empty(data.deep_view(), y as int, left as int, right as int),
{
    let ghost p = data.deep_view();
    let len: usize = data.data.len();
    let width: usize = data.width as usize;
    let mut x: usize = left;
    while x < right
        invariant
            left <= x,
            x <= right || left > right,
            right <= width,
            width == data.width,
            y < data.height,
            p == data.deep_view(),
            p.wf(),
            p.data.len() <= usize::MAX,
            forall|i: int| left <= i < x ==> #[trigger] alpha_of(p, i, y as int) == 0,
        decreases right - x,
    {
        proof {
            lemma_pixel_index(width as int, data.height as int, x as int, y as int);
            assert(alpha_of(p, x as int, y as int) == p.data[4 * (y * width + x) + 3]);
        }
        if data.data[4 * (y * width + x) + 3] != 0 {
            return false;
        }
        x += 1;
    }
    true
}

/// Whether part of a column is fully transparent.
pub fn is_col_empty(data: &PixelData, x: usize, top: usize, bottom: usize) -> (empty: bool)
    requires
        data.deep_view().wf(),
        x < data.width,
        bottom <= data.height,
    ensures
        empty == col_empty(data.deep_view(), x as int, top as int, bottom as int),
{
    let ghost p = data.deep_view();
    let len: usize = data.data.len();
    let width: usize = data.width as usize;
    let mut y: usize = top;
    while y < bottom
        invariant
            top <= y,
            y <= bottom || top > bottom,
            bottom <= data.height,
            width == data.width,
            x < width,
            p == data.deep_view(),
            p.wf(),
            p.data.len() <= usize::MAX,
            forall|i: int| top <= i < y ==> #[trigger] alpha_of(p, x as int, i) == 0,
        decreases bottom - y,
    {
        proof {
            lemma_pixel_index(width as int, data.height as int, x as int, y as int);
            assert(alpha_of(p, x as int, y as int) == p.data[4 * (y * width + x) + 3]);
        }
        if data.data[4 * (y * width + x) + 3] != 0 {
            return false;
        }
        y += 1;
    }
    true
}

/// The first row from `top` on that is not transparent, or `bottom`.
pub open spec fn first_row(p: PixelDataView, top: int, bottom: int) -> int
    decreases bottom - top,
{
    if top < bottom && row_empty(p, top, 0, p.width as int) {
        first_row(p, top + 1, bottom)
    } else {
        top
    }
}

/// The row behind the last one before `bottom` that is not transparent, or `top`.
pub open spec fn last_row(p: PixelDataView, top: int, bottom: int) -> int
    decreases bottom - top,
{
    if top < bottom && row_empty(p, bottom - 1, 0, p.width as int) {
        last_row(p, top, bottom - 1)
    } else {
        bottom
    }
}

/// The first column from `left` on that is not transparent, or `right`.
pub open spec fn first_col(p: PixelDataView, left: int, right: int, top: int, bottom: int) -> int
    decreases right - left,
{
    if left < right && col_empty(p, left, top, bottom) {
        first_col(p, left + 1, right, top, bottom)
    } else {
        left
    }
}

/// The column behind the last one before `right` that is not transparent, or `left`.
pub open spec fn last_col(p: PixelDataView, left: int, right: int, top: int, bottom: int) -> int
    decreases right - left,
{
    if left < right && col_empty(p, right - 1, top, bottom) {
        last_col(p, left, right - 1, top, bottom)
    } else {
        right
    }
}

/// What is left of a bitmap without its transparent border.
pub open spec fn trimmed(p: PixelDataView) -> Bounds {
    let top = first_row(p, 0, p.height as int);
    let bottom = last_row(p, top, p.height as int);
    let left = first_col(p, 0, p.width as int, top, bottom);
    let right = last_col(p, left, p.width as int, top, bottom);
    Bounds { top: top as i32, left: left as i32, right: right as i32, bottom: bottom as i32 }
}

/// The edges of a rectangle are these.
pub open spec fn box_is(b: Bounds, top: int, left: int, right: int, bottom: int) -> bool {
    b.top == top && b.left == left && b.right == right && b.bottom == bottom
}

/// The places of the four edges.
pub proof fn lemma_trim_order(p: PixelDataView)
    requires
        p.width <= i32::MAX,
        p.height <= i32::MAX,
    ensures
        0 <= trimmed(p).top <= trimmed(p).bottom <= p.height,
        0 <= trimmed(p).left <= trimmed(p).right <= p.width,
{
    let top = first_row(p, 0, p.height as int);
    lemma_first_row(p, 0, p.height as int);
    let bottom = last_row(p, top, p.height as int);
    lemma_last_row(p, top, p.height as int);
    let left = first_col(p, 0, p.width as int, top, bottom);
    lemma_first_col(p, 0, p.width as int, top, bottom);
    lemma_last_col(p, left, p.width as int, top, bottom);
}

proof fn lemma_first_row(p: PixelDataView, top: int, bottom: int)
    requires
        top <= bottom,
    ensures
        top <= first_row(p, top, bottom) <= bottom,
        forall|y: int|
            top <= y < first_row(p, top, bottom) ==> #[trigger] row_empty(p, y, 0, p.width as int),
        first_row(p, top, bottom) < bottom ==> !row_empty(
            p,
            first_row(p, top, bottom),
            0,
            p.width as int,
        ),
    decreases bottom - top,
{
    if top < bottom && row_empty(p, top, 0, p.width as int) {
        lemma_first_row(p, top + 1, bottom);
    }
}

proof fn lemma_last_row(p: PixelDataView, top: int, bottom: int)
    requires
        top <= bottom,
    ensures
        top <= last_row(p, top, bottom) <= bottom,
        forall|y: int|
            last_row(p, top, bottom) <= y < bottom ==> #[trigger] row_empty(
                p,
                y,
                0,
                p.width as int,
            ),
        top < last_row(p, top, bottom) ==> !row_empty(
            p,
            last_row(p, top, bottom) - 1,
            0,
            p.width as int,
        ),
    decreases bottom - top,
{
    if top < bottom && row_empty(p, bottom - 1, 0, p.width as int) {
        lemma_last_row(p, top, bottom - 1);
    }
}

proof fn lemma_first_col(p: PixelDataView, left: int, right: int, top: int, bottom: int)
    requires
        left <= right,
    ensures
        left <= first_col(p, left, right, top, bottom) <= right,
        forall|x: int|
            left <= x < first_col(p, left, right, top, bottom) ==> #[trigger] col_empty(
                p,
                x,
                top,
                bottom,
            ),
        first_col(p, left, right, top, bottom) < right ==> !col_empty(
            p,
            first_col(p, left, right, top, bottom),
            top,
            bottom,
        ),
    decreases right - left,
{
    if left < right && col_empty(p, left, top, bottom) {
        lemma_first_col(p, left + 1, right, top, bottom);
    }
}

proof fn lemma_last_col(p: PixelDataView, left: int, right: int, top: int, bottom: int)
    requires
        left <= right,
    ensures
        left <= last_col(p, left, right, top, bottom) <= right,
        forall|x: int|
            last_col(p, left, right, top, bottom) <= x < right ==> #[trigger] col_empty(
                p,
                x,
                top,
                bottom,
            ),
        left < last_col(p, left, right, top, bottom) ==> !col_empty(
            p,
            last_col(p, left, right, top, bottom) - 1,
            top,
            bottom,
        ),
    decreases right - left,
{
    if left < right && col_empty(p, right - 1, top, bottom) {
        lemma_last_col(p, left, right - 1, top, bottom);
    }
}

/// The pixel lies in a rectangle.
pub open spec fn inside(b: Bounds, x: int, y: int) -> bool {
    b.left <= x < b.right && b.top <= y < b.bottom
}

/// What is cut off is fully transparent, and nothing more can be cut off: every
/// edge of what is left holds a pixel that is not. Of a fully transparent bitmap
/// nothing is left.
pub proof fn law_trim_is_tight(p: PixelDataView)
    requires
        p.width <= i32::MAX,
        p.height <= i32::MAX,
    ensures
        forall|x: int, y: int|
            0 <= x < p.width && 0 <= y < p.height && !inside(trimmed(p), x, y)
                ==> #[trigger] alpha_of(p, x, y) == 0,
        ({
            let b = trimmed(p);
            ||| b == (Bounds {
                top: p.height as i32,
                left: p.width as i32,
                right: p.width as i32,
                bottom: p.height as i32,
            })
            ||| {
                &&& b.top < b.bottom
                &&& b.left < b.right
                &&& !row_empty(p, b.top as int, b.left as int, b.right as int)
                &&& !row_empty(p, b.bottom - 1, b.left as int, b.right as int)
                &&& !col_empty(p, b.left as int, b.top as int, b.bottom as int)
                &&& !col_empty(p, b.right - 1, b.top as int, b.bottom as int)
            }
        }),
{
    let width = p.width as int;
    let height = p.height as int;
    let top = first_row(p, 0, height);
    lemma_first_row(p, 0, height);
    let bottom = last_row(p, top, height);
    lemma_last_row(p, top, height);
    let left = first_col(p, 0, width, top, bottom);
    lemma_first_col(p, 0, width, top, bottom);
    let right = last_col(p, left, width, top, bottom);
    lemma_last_col(p, left, width, top, bottom);
    assert forall|x: int, y: int|
        0 <= x < p.width && 0 <= y < p.height && !inside(trimmed(p), x, y) implies #[trigger] alpha_of(
        p,
        x,
        y,
    ) == 0 by {
        if y < top || y >= bottom {
            assert(row_empty(p, y, 0, width));
        } else {
            assert(col_empty(p, x, top, bottom));
        }
    }
    if top < height {
        let x = choose|x: int| 0 <= x < width && #[trigger] alpha_of(p, x, top) != 0;
        if bottom <= top {
            assert(row_empty(p, top, 0, width));
            assert(false);
        }
        if x < left || x >= right {
            assert(col_empty(p, x, top, bottom));
            assert(false);
        }
        assert(alpha_of(p, x, top) != 0);
        let z = choose|z: int| 0 <= z < width && #[trigger] alpha_of(p, z, bottom - 1) != 0;
        if z < left || z >= right {
            assert(col_empty(p, z, top, bottom));
            assert(false);
        }
        assert(alpha_of(p, z, bottom - 1) != 0);
    }
}

/// What is left of a bitmap without its transparent border.
pub fn trim_data(data: &PixelData) -> (bounds: Bounds)
    requires
        data.deep_view().wf(),
        data.width <= i32::MAX,
        data.height <= i32::MAX,
    ensures
        bounds == trimmed(data.deep_view()),
        0 <= bounds.top <= bounds.bottom <= data.height,
        0 <= bounds.left <= bounds.right <= data.width,
{
    let ghost p = data.deep_view();
    let width: usize = data.width as usize;
    let height: usize = data.height as usize;
    let mut top: usize = 0;
    let mut bottom: usize = height;
    while top < bottom && is_row_empty(data, top, 0, width)
        invariant
            top <= bottom == height,
            height == data.height,
            width == data.width,
            p == data.deep_view(),
            p.wf(),
            first_row(p, top as int, height as int) == first_row(p, 0, height as int),
        decreases bottom - top,
    {
        top += 1;
    }
    while top < bottom && is_row_empty(data, bottom - 1, 0, width)
        invariant
            top <= bottom <= height,
            height == data.height,
            width == data.width,
            p == data.deep_view(),
            p.wf(),
            last_row(p, top as int, bottom as int) == last_row(p, top as int, height as int),
        decreases bottom - top,
    {
        bottom -= 1;
    }
    let mut left: usize = 0;
    let mut right: usize = width;
    while left < right && is_col_empty(data, left, top, bottom)
        invariant
            left <= right == width,
            bottom <= data.height,
            width == data.width,
            p == data.deep_view(),
            p.wf(),
            first_col(p, left as int, width as int, top as int, bottom as int) == first_col(
                p,
                0,
                width as int,
                top as int,
                bottom as int,
            ),
        decreases right - left,
    {
        left += 1;
    }
    while left < right && is_col_empty(data, right - 1, top, bottom)
        invariant
            left <= right <= width,
            bottom <= data.height,
            width == data.width,
            p == data.deep_view(),
            p.wf(),
            last_col(p, left as int, right as int, top as int, bottom as int) == last_col(
                p,
                left as int,
                width as int,
                top as int,
                bottom as int,
            ),
        decreases right - left,
    {
        right -= 1;
    }
    Bounds { top: top as i32, left: left as i32, right: right as i32, bottom: bottom as i32 }
}

/// A part of a bitmap.
pub open spec fn cropped(
    p: PixelDataView,
    left: int,
    top: int,
    width: int,
    height: int,
) -> PixelDataView {
    PixelDataView {
        width: width as u32,
        height: height as u32,
        data: Seq::new(
            (width * height * 4) as nat,
            |i: int|
                p.data[4 * ((top + (i / 4) / width) * p.width + left + (i / 4) % width) + i % 4],
        ),
    }
}

proof fn lemma_crop_index(width: int, height: int, i: int)
    requires
        0 < width,
        0 <= i < width * height,
    ensures
        0 <= i / width < height,
        0 <= i % width < width,
{
    assert(0 <= i / width < height && 0 <= i % width < width) by (nonlinear_arith)
        requires
            0 < width,
            0 <= i < width * height,
    ;
}

/// A copy of a part of a bitmap.
pub fn crop_image_data(data: &PixelData, left: usize, top: usize, width: usize, height: usize) -> (part:
    PixelData)
    requires
        data.deep_view().wf(),
        left + width <= data.width,
        top + height <= data.height,
    ensures
        part.deep_view() == cropped(
            data.deep_view(),
            left as int,
            top as int,
            width as int,
            height as int,
        ),
        part.deep_view().wf(),
{
    let ghost p = data.deep_view();
    let ghost all = cropped(p, left as int, top as int, width as int, height as int).data;
    let len: usize = data.data.len();
    let pitch: usize = data.width as usize;
    assert(width * height * 4 <= data.width * data.height * 4 && 0 <= width * height)
        by (nonlinear_arith)
        requires
            0 <= width <= data.width,
            0 <= height <= data.height,
    ;
    let size: usize = width * height;
    let mut part: Vec<u8> = Vec::new();
    let mut i: usize = 0;
    while i < size
        invariant
            i <= size,
            size == width * height,
            size * 4 <= usize::MAX,
            pitch == data.width,
            left + width <= data.width,
            top + height <= data.height,
            p == data.deep_view(),
            p.wf(),
            p.data.len() <= usize::MAX,
            all == cropped(p, left as int, top as int, width as int, height as int).data,
            part@ == all.take(4 * i),
        decreases size - i,
    {
        assert(width > 0) by (nonlinear_arith)
            requires
                0 <= i < size,
                size == width * height,
                0 <= width,
        ;
        proof {
            lemma_crop_index(width as int, height as int, i as int);
            lemma_pixel_index(
                pitch as int,
                data.height as int,
                left + i as int % width as int,
                top + i as int / width as int,
            );
        }
        let x: usize = left + i % width;
        let y: usize = top + i / width;
        let s: usize = 4 * (y * pitch + x);
        proof {
            assert((4 * i) / 4 == i && (4 * i) % 4 == 0);
            assert((4 * i + 1) / 4 == i && (4 * i + 1) % 4 == 1);
            assert((4 * i + 2) / 4 == i && (4 * i + 2) % 4 == 2);
            assert((4 * i + 3) / 4 == i && (4 * i + 3) % 4 == 3);
            assert(all[4 * i] == p.data[s as int]);
            assert(all[4 * i + 1] == p.data[s + 1]);
            assert(all[4 * i + 2] == p.data[s + 2]);
            assert(all[4 * i + 3] == p.data[s + 3]);
        }
        part.push(data.data[s]);
        part.push(data.data[s + 1]);
        part.push(data.data[s + 2]);
        part.push(data.data[s + 3]);
        i += 1;
        assert(part@ =~= all.take(4 * i));
    }
    assert(part@ =~= all);
    PixelData { width: width as u32, height: height as u32, data: part }
}

} // verus!
