//! Locating the picture inside a frame with bars, and cropping to it.

use crate::frame::{Rgb, RgbImage};
use crate::imageprocessing::blackborder::Bounds;
use vstd::prelude::*;

verus! {

/// The largest squared colour distance at which two pixels still count as
/// the same colour: 5 per channel, over three channels.
pub const FUZZ: u32 = 5 * 5 * 3;

/// `a - b` on `u8`, wrapping round.
pub open spec fn wrapped_gap(a: u8, b: u8) -> int {
    if a >= b {
        a - b
    } else {
        a - b + 256
    }
}

/// The squared colour distance from `p2` to `p1`, channel differences taken
/// as wrapping `u8` subtractions.
pub open spec fn color_distance(p1: Rgb, p2: Rgb) -> int {
    wrapped_gap(p1.0[0], p2.0[0]) * wrapped_gap(p1.0[0], p2.0[0]) + wrapped_gap(p1.0[1], p2.0[1])
        * wrapped_gap(p1.0[1], p2.0[1]) + wrapped_gap(p1.0[2], p2.0[2]) * wrapped_gap(
        p1.0[2],
        p2.0[2],
    )
}

/// `p1` has the colour of `p2`, up to `FUZZ`.
pub open spec fn pixels_alike(p1: Rgb, p2: Rgb) -> bool {
    color_distance(p1, p2) <= FUZZ
}

/// Pixel `(x, y)` of `img` does not have the colour `target`.
pub open spec fn differs(img: RgbImage, x: int, y: int, target: Rgb) -> bool {
    !pixels_alike(img.pixel(x, y), target)
}

/// Some pixel of column `x` does not have the colour `target`.
pub open spec fn column_differs(img: RgbImage, x: int, target: Rgb) -> bool {
    exists|y: int| 0 <= y < img.height() && #[trigger] differs(img, x, y, target)
}

/// Some pixel of row `y` does not have the colour `target`.
pub open spec fn row_differs(img: RgbImage, y: int, target: Rgb) -> bool {
    exists|x: int| 0 <= x < img.width() && #[trigger] differs(img, x, y, target)
}

/// The first column at or right of `x` that differs from `target`, or the
/// width when there is none.
pub open spec fn first_column_from(img: RgbImage, target: Rgb, x: int) -> int
    decreases img.width() - x,
{
    if x >= img.width() {
        img.width() as int
    } else if column_differs(img, x, target) {
        x
    } else {
        first_column_from(img, target, x + 1)
    }
}

/// The last column left of `k` that differs from `target`, or 0 when there
/// is none.
pub open spec fn last_column_below(img: RgbImage, target: Rgb, k: int) -> int
    decreases k,
{
    if k <= 0 {
        0
    } else if column_differs(img, k - 1, target) {
        k - 1
    } else {
        last_column_below(img, target, k - 1)
    }
}

/// The first row at or below `y` that differs from `target`, or the height
/// when there is none.
pub open spec fn first_row_from(img: RgbImage, target: Rgb, y: int) -> int
    decreases img.height() - y,
{
    if y >= img.height() {
        img.height() as int
    } else if row_differs(img, y, target) {
        y
    } else {
        first_row_from(img, target, y + 1)
    }
}

/// The last row above `k` that differs from `target`, or 0 when there is none.
pub open spec fn last_row_below(img: RgbImage, target: Rgb, k: int) -> int
    decreases k,
{
    if k <= 0 {
        0
    } else if row_differs(img, k - 1, target) {
        k - 1
    } else {
        last_row_below(img, target, k - 1)
    }
}

/// `a - b` on `u32`, wrapping round.
pub open spec fn wrap_sub(a: u32, b: u32) -> u32 {
    if a >= b {
        (a - b) as u32
    } else {
        (a - b + 0x1_0000_0000) as u32
    }
}

/// The bounds of the picture in `img`. The bars are told by the corner
/// pixels: the left edge is the first column, and the top edge the first
/// row, that differ from the top-left pixel; the right edge is the last
/// column that differs from the top-right pixel, and the bottom edge the last
/// row that differs from the bottom-left pixel. When both the right and the
/// bottom edge are 0 there is no picture. Width and height are
/// `right - (left - 1)` and `bottom - (top - 1)` in wrapping `u32` arithmetic.
pub open spec fn content_bounds(img: RgbImage) -> Option<Bounds> {
    let w = img.width() as int;
    let h = img.height() as int;
    let left = first_column_from(img, img.pixel(0, 0), 0) as u32;
    let top = first_row_from(img, img.pixel(0, 0), 0) as u32;
    let right = last_column_below(img, img.pixel(w - 1, 0), w) as u32;
    let bottom = last_row_below(img, img.pixel(0, h - 1), h) as u32;
    if right == 0 && bottom == 0 {
        None
    } else {
        Some(
            Bounds {
                x: left,
                y: top,
                width: wrap_sub(right, wrap_sub(left, 1)),
                height: wrap_sub(bottom, wrap_sub(top, 1)),
            },
        )
    }
}

/// The rectangle that `image::imageops::crop` keeps of a `w` by `h` frame:
/// the corner is clamped into the frame, and the size to what is left of it.
pub open spec fn crop_rect(w: u32, h: u32, rect: Bounds) -> Bounds {
    let x = if rect.x <= w {
        rect.x
    } else {
        w
    };
    let y = if rect.y <= h {
        rect.y
    } else {
        h
    };
    Bounds {
        x,
        y,
        width: if rect.width <= w - x {
            rect.width
        } else {
            (w - x) as u32
        },
        height: if rect.height <= h - y {
            rect.height
        } else {
            (h - y) as u32
        },
    }
}

/// Every pixel has its own colour.
pub proof fn lemma_pixel_alike_itself(p: Rgb)
    ensures
        pixels_alike(p, p),
{
    assert(wrapped_gap(p.0[0], p.0[0]) == 0);
    assert(wrapped_gap(p.0[1], p.0[1]) == 0);
    assert(wrapped_gap(p.0[2], p.0[2]) == 0);
    assert(color_distance(p, p) == 0);
}

proof fn lemma_square_monotone(a: int, b: int)
    by (nonlinear_arith)
    requires
        0 <= a <= b,
    ensures
        a * a <= b * b,
{
}

/// A pixel that lies, channel by channel, between `p2` and a pixel `p1`
/// that matches `p2`, matches `p2` as well.
pub proof fn lemma_between_a_match_matches(p1: Rgb, p2: Rgb, q: Rgb)
    requires
        pixels_alike(p1, p2),
        forall|c: int| 0 <= c < 3 ==> p2.0[c] <= #[trigger] q.0[c] <= p1.0[c],
    ensures
        pixels_alike(q, p2),
{
    assert(p2.0[0] <= q.0[0] <= p1.0[0]);
    assert(p2.0[1] <= q.0[1] <= p1.0[1]);
    assert(p2.0[2] <= q.0[2] <= p1.0[2]);
    lemma_square_monotone(wrapped_gap(q.0[0], p2.0[0]), wrapped_gap(p1.0[0], p2.0[0]));
    lemma_square_monotone(wrapped_gap(q.0[1], p2.0[1]), wrapped_gap(p1.0[1], p2.0[1]));
    lemma_square_monotone(wrapped_gap(q.0[2], p2.0[2]), wrapped_gap(p1.0[2], p2.0[2]));
}

/// `first_column_from` finds the first differing column: none before it
/// differs, and it differs unless it is the width.
pub proof fn lemma_first_column_is_first(img: RgbImage, target: Rgb, x0: int)
    requires
        0 <= x0 <= img.width(),
    ensures
        x0 <= first_column_from(img, target, x0) <= img.width(),
        forall|x: int|
            x0 <= x < first_column_from(img, target, x0) ==> !#[trigger] column_differs(img, x, target),
        first_column_from(img, target, x0) < img.width() ==> column_differs(
            img,
            first_column_from(img, target, x0),
            target,
        ),
    decreases img.width() - x0,
{
    if x0 < img.width() && !column_differs(img, x0, target) {
        lemma_first_column_is_first(img, target, x0 + 1);
    }
}

/// `last_column_below` finds the last differing column: none after it
/// differs, and it differs unless it is 0.
pub proof fn lemma_last_column_is_last(img: RgbImage, target: Rgb, k: int)
    requires
        0 <= k <= img.width(),
    ensures
        0 <= last_column_below(img, target, k) <= if k > 0 { k - 1 } else { 0 },
        forall|x: int|
            last_column_below(img, target, k) < x < k ==> !#[trigger] column_differs(img, x, target),
        last_column_below(img, target, k) > 0 ==> column_differs(
            img,
            last_column_below(img, target, k),
            target,
        ),
    decreases k,
{
    if k > 0 && !column_differs(img, k - 1, target) {
        lemma_last_column_is_last(img, target, k - 1);
    }
}

/// `first_row_from` finds the first differing row: none before it differs,
/// and it differs unless it is the height.
pub proof fn lemma_first_row_is_first(img: RgbImage, target: Rgb, y0: int)
    requires
        0 <= y0 <= img.height(),
    ensures
        y0 <= first_row_from(img, target, y0) <= img.height(),
        forall|y: int|
            y0 <= y < first_row_from(img, target, y0) ==> !#[trigger] row_differs(img, y, target),
        first_row_from(img, target, y0) < img.height() ==> row_differs(
            img,
            first_row_from(img, target, y0),
            target,
        ),
    decreases img.height() - y0,
{
    if y0 < img.height() && !row_differs(img, y0, target) {
        lemma_first_row_is_first(img, target, y0 + 1);
    }
}

/// `last_row_below` finds the last differing row: none after it differs,
/// and it differs unless it is 0.
pub proof fn lemma_last_row_is_last(img: RgbImage, target: Rgb, k: int)
    requires
        0 <= k <= img.height(),
    ensures
        0 <= last_row_below(img, target, k) <= if k > 0 { k - 1 } else { 0 },
        forall|y: int| last_row_below(img, target, k) < y < k ==> !#[trigger] row_differs(img, y, target),
        last_row_below(img, target, k) > 0 ==> row_differs(img, last_row_below(img, target, k), target),
    decreases k,
{
    if k > 0 && !row_differs(img, k - 1, target) {
        lemma_last_row_is_last(img, target, k - 1);
    }
}

/// A frame of a single colour holds no picture.
pub proof fn lemma_uniform_frame_has_no_picture(img: RgbImage)
    requires
        img.width() > 0,
        img.height() > 0,
        forall|x: int, y: int|
            0 <= x < img.width() && 0 <= y < img.height() ==> #[trigger] img.pixel(x, y) == img.pixel(
                0,
                0,
            ),
    ensures
        content_bounds(img) is None,
{
    let w = img.width() as int;
    let h = img.height() as int;
    let c = img.pixel(0, 0);
    lemma_pixel_alike_itself(c);
    assert(img.pixel(w - 1, 0) == c);
    assert(img.pixel(0, h - 1) == c);
    lemma_last_column_is_last(img, c, w);
    lemma_last_row_is_last(img, c, h);
    let r = last_column_below(img, c, w);
    let b = last_row_below(img, c, h);
    if r > 0 {
        let y = choose|y: int| 0 <= y < h && #[trigger] differs(img, r, y, c);
        assert(img.pixel(r, y) == c);
    }
    if b > 0 {
        let x = choose|x: int| 0 <= x < w && #[trigger] differs(img, x, b, c);
        assert(img.pixel(x, b) == c);
    }
}

/// No pixel of columns `1..width` differs from `c`.
proof fn lemma_no_later_column_differs(img: RgbImage, c: Rgb)
    requires
        img.width() >= 1,
        last_column_below(img, c, img.width() as int) == 0,
    ensures
        forall|x: int, y: int|
            1 <= x < img.width() && 0 <= y < img.height() ==> !#[trigger] differs(img, x, y, c),
{
    lemma_last_column_is_last(img, c, img.width() as int);
    assert forall|x: int, y: int|
        1 <= x < img.width() && 0 <= y < img.height() implies !#[trigger] differs(img, x, y, c) by {
        assert(!column_differs(img, x, c));
    }
}

/// No pixel of rows `1..height` differs from `c`.
proof fn lemma_no_later_row_differs(img: RgbImage, c: Rgb)
    requires
        img.height() >= 1,
        last_row_below(img, c, img.height() as int) == 0,
    ensures
        forall|x: int, y: int|
            0 <= x < img.width() && 1 <= y < img.height() ==> !#[trigger] differs(img, x, y, c),
{
    lemma_last_row_is_last(img, c, img.height() as int);
    assert forall|x: int, y: int|
        0 <= x < img.width() && 1 <= y < img.height() implies !#[trigger] differs(img, x, y, c) by {
        assert(!row_differs(img, y, c));
    }
}

/// What the bounds of the picture are, in terms of the pixels alone. With
/// `tl`, `tr` and `bl` the top-left, top-right and bottom-left pixels:
/// - there is no picture exactly when no pixel right of the first column
///   differs from `tr` and no pixel below the first row differs from `bl`;
/// - otherwise the box starts at the first column, and the first row, that
///   hold a pixel unlike `tl` (or at the width or height when none does);
/// - its right edge `x + width - 1` and its bottom edge `y + height - 1`
///   (modulo `2^32`) are the last column holding a pixel unlike `tr` and the
///   last row holding a pixel unlike `bl` (0 when there is none).
pub proof fn lemma_content_bounds_characterized(img: RgbImage)
    requires
        img.width() >= 1,
        img.height() >= 1,
    ensures
        ({
            let w = img.width() as int;
            let h = img.height() as int;
            let tl = img.pixel(0, 0);
            let tr = img.pixel(w - 1, 0);
            let bl = img.pixel(0, h - 1);
            &&& (content_bounds(img) is None) <==> ((forall|x: int, y: int|
                1 <= x < w && 0 <= y < h ==> !#[trigger] differs(img, x, y, tr)) && (forall|
                x: int,
                y: int,
            | 0 <= x < w && 1 <= y < h ==> !#[trigger] differs(img, x, y, bl)))
            &&& content_bounds(img) matches Some(b) ==> {
                &&& b.x <= w
                &&& b.y <= h
                &&& forall|x: int, y: int|
                    0 <= x < b.x && 0 <= y < h ==> !#[trigger] differs(img, x, y, tl)
                &&& b.x < w ==> exists|y: int| 0 <= y < h && #[trigger] differs(img, b.x as int, y, tl)
                &&& forall|x: int, y: int|
                    0 <= x < w && 0 <= y < b.y ==> !#[trigger] differs(img, x, y, tl)
                &&& b.y < h ==> exists|x: int| 0 <= x < w && #[trigger] differs(img, x, b.y as int, tl)
                &&& ({
                    let r = (b.x + b.width - 1) % 0x1_0000_0000;
                    &&& 0 <= r < w
                    &&& forall|x: int, y: int|
                        r < x < w && 0 <= y < h ==> !#[trigger] differs(img, x, y, tr)
                    &&& r > 0 ==> exists|y: int| 0 <= y < h && #[trigger] differs(img, r, y, tr)
                })
                &&& ({
                    let t = (b.y + b.height - 1) % 0x1_0000_0000;
                    &&& 0 <= t < h
                    &&& forall|x: int, y: int|
                        0 <= x < w && t < y < h ==> !#[trigger] differs(img, x, y, bl)
                    &&& t > 0 ==> exists|x: int| 0 <= x < w && #[trigger] differs(img, x, t, bl)
                })
            }
        }),
{
    let w = img.width() as int;
    let h = img.height() as int;
    let tl = img.pixel(0, 0);
    let tr = img.pixel(w - 1, 0);
    let bl = img.pixel(0, h - 1);
    lemma_first_column_is_first(img, tl, 0);
    lemma_first_row_is_first(img, tl, 0);
    lemma_last_column_is_last(img, tr, w);
    lemma_last_row_is_last(img, bl, h);
    let left = first_column_from(img, tl, 0);
    let top = first_row_from(img, tl, 0);
    let right = last_column_below(img, tr, w);
    let bottom = last_row_below(img, bl, h);
    if right == 0 {
        lemma_no_later_column_differs(img, tr);
    } else {
        let y = choose|y: int| 0 <= y < h && #[trigger] differs(img, right, y, tr);
        assert(differs(img, right, y, tr));
    }
    if bottom == 0 {
        lemma_no_later_row_differs(img, bl);
    } else {
        let x = choose|x: int| 0 <= x < w && #[trigger] differs(img, x, bottom, bl);
        assert(differs(img, x, bottom, bl));
    }
    if let Some(b) = content_bounds(img) {
        assert forall|x: int, y: int| 0 <= x < b.x && 0 <= y < h implies !#[trigger] differs(
            img,
            x,
            y,
            tl,
        ) by {
            assert(!column_differs(img, x, tl));
        }
        assert forall|x: int, y: int| 0 <= x < w && 0 <= y < b.y implies !#[trigger] differs(
            img,
            x,
            y,
            tl,
        ) by {
            assert(!row_differs(img, y, tl));
        }
        assert forall|x: int, y: int| right < x < w && 0 <= y < h implies !#[trigger] differs(
            img,
            x,
            y,
            tr,
        ) by {
            assert(!column_differs(img, x, tr));
        }
        assert forall|x: int, y: int| 0 <= x < w && bottom < y < h implies !#[trigger] differs(
            img,
            x,
            y,
            bl,
        ) by {
            assert(!row_differs(img, y, bl));
        }
        assert((b.x + b.width - 1) % 0x1_0000_0000 == right);
        assert((b.y + b.height - 1) % 0x1_0000_0000 == bottom);
    }
}

/// Cropping to a rectangle that lies inside the frame keeps it as it is.
pub proof fn lemma_crop_inside_is_exact(w: u32, h: u32, rect: Bounds)
    requires
        rect.x + rect.width <= w,
        rect.y + rect.height <= h,
    ensures
        crop_rect(w, h, rect) == rect,
{
}

/// When the three corners the bars are told by share the colour `c`, the
/// bounds of the picture fit inside the frame, so `trim` keeps exactly that
/// rectangle (see `lemma_crop_inside_is_exact`); every pixel unlike `c` lies
/// inside it, and its first and last column and its first and last row each
/// hold such a pixel, so nothing more could be cut away.
pub proof fn lemma_trim_to_content_bounds(img: RgbImage, c: Rgb, b: Bounds)
    requires
        img.width() >= 1,
        img.height() >= 1,
        img.pixel(0, 0) == c,
        img.pixel(img.width() - 1, 0) == c,
        img.pixel(0, img.height() - 1) == c,
        content_bounds(img) == Some(b),
    ensures
        crop_rect(img.width(), img.height(), b) == b,
        b.width >= 1,
        b.height >= 1,
        b.x + b.width <= img.width(),
        b.y + b.height <= img.height(),
        forall|x: int, y: int|
            0 <= x < img.width() && 0 <= y < img.height() && #[trigger] differs(img, x, y, c) ==> b.x
                <= x < b.x + b.width && b.y <= y < b.y + b.height,
        exists|y: int| b.y <= y < b.y + b.height && #[trigger] differs(img, b.x as int, y, c),
        exists|y: int|
            b.y <= y < b.y + b.height && #[trigger] differs(img, b.x + b.width - 1, y, c),
        exists|x: int| b.x <= x < b.x + b.width && #[trigger] differs(img, x, b.y as int, c),
        exists|x: int|
            b.x <= x < b.x + b.width && #[trigger] differs(img, x, b.y + b.height - 1, c),
{
    let w = img.width() as int;
    let h = img.height() as int;
    lemma_first_column_is_first(img, c, 0);
    lemma_last_column_is_last(img, c, w);
    lemma_first_row_is_first(img, c, 0);
    lemma_last_row_is_last(img, c, h);
    let left = first_column_from(img, c, 0);
    let right = last_column_below(img, c, w);
    let top = first_row_from(img, c, 0);
    let bottom = last_row_below(img, c, h);
    // Some pixel differs from `c`.
    let (px, py) = if right > 0 {
        let y = choose|y: int| 0 <= y < h && #[trigger] differs(img, right, y, c);
        (right, y)
    } else {
        let x = choose|x: int| 0 <= x < w && #[trigger] differs(img, x, bottom, c);
        (x, bottom)
    };
    assert(differs(img, px, py, c));
    assert forall|x: int, y: int|
        0 <= x < w && 0 <= y < h && #[trigger] differs(img, x, y, c) implies left <= x <= right
        && top <= y <= bottom by {
        assert(column_differs(img, x, c));
        assert(row_differs(img, y, c));
    }
    assert(column_differs(img, px, c));
    assert(row_differs(img, py, c));
    assert(left < w);
    assert(top < h);
    assert(left <= right && top <= bottom);
    assert(b.x == left && b.y == top);
    assert(b.width == right - left + 1);
    assert(b.height == bottom - top + 1);
    lemma_crop_inside_is_exact(img.width(), img.height(), b);
    // The edges of the box each hold a differing pixel.
    let yl = choose|y: int| 0 <= y < h && #[trigger] differs(img, left, y, c);
    assert(differs(img, b.x as int, yl, c));
    if right > 0 {
        let yr = choose|y: int| 0 <= y < h && #[trigger] differs(img, right, y, c);
        assert(differs(img, b.x + b.width - 1, yr, c));
    } else {
        assert(differs(img, b.x + b.width - 1, yl, c));
    }
    let xt = choose|x: int| 0 <= x < w && #[trigger] differs(img, x, top, c);
    assert(differs(img, xt, b.y as int, c));
    if bottom > 0 {
        let xb = choose|x: int| 0 <= x < w && #[trigger] differs(img, x, bottom, c);
        assert(differs(img, xb, b.y + b.height - 1, c));
    } else {
        assert(differs(img, xt, b.y + b.height - 1, c));
    }
}

/// What `trim` keeps: the corner clamped into the frame, and the largest
/// size that fits both the requested rectangle and the frame from there.
pub proof fn lemma_crop_rect_is_largest_fit(w: u32, h: u32, rect: Bounds)
    ensures
        ({
            let c = crop_rect(w, h, rect);
            &&& c.x == if rect.x <= w { rect.x } else { w }
            &&& c.y == if rect.y <= h { rect.y } else { h }
            &&& c.x + c.width <= w
            &&& c.y + c.height <= h
            &&& c.width <= rect.width
            &&& c.height <= rect.height
            &&& c.width == rect.width || c.x + c.width == w
            &&& c.height == rect.height || c.y + c.height == h
        }),
{
}

/// Cuts `img` down to `rect`, clamped to the frame (see `crop_rect`).
pub fn trim(img: RgbImage, rect: &Bounds) -> (out: RgbImage)
    ensures
        ({
            let c = crop_rect(img.width(), img.height(), *rect);
            &&& out.width() == c.width
            &&& out.height() == c.height
            &&& forall|i: int, j: int|
                0 <= i < c.width && 0 <= j < c.height ==> #[trigger] out.pixel(i, j) == img.pixel(
                    c.x + i,
                    c.y + j,
                )
        }),
{
    let w = img.width();
    let h = img.height();
    let x = if rect.x <= w {
        rect.x
    } else {
        w
    };
    let y = if rect.y <= h {
        rect.y
    } else {
        h
    };
    let width = if rect.width <= w - x {
        rect.width
    } else {
        w - x
    };
    let height = if rect.height <= h - y {
        rect.height
    } else {
        h - y
    };
    img.sub_image(x, y, width, height)
}

/// Whether `p1` has the colour of `p2`, up to `FUZZ`.
pub fn fuzzy_match(p1: &Rgb, p2: &Rgb) -> (alike: bool)
    ensures
        alike == pixels_alike(*p1, *p2),
{
    let d0 = p1.0[0].wrapping_sub(p2.0[0]) as u32;
    let d1 = p1.0[1].wrapping_sub(p2.0[1]) as u32;
    let d2 = p1.0[2].wrapping_sub(p2.0[2]) as u32;
    assert(d0 * d0 <= 255 * 255 && d1 * d1 <= 255 * 255 && d2 * d2 <= 255 * 255) by (nonlinear_arith)
        requires
            d0 <= 255,
            d1 <= 255,
            d2 <= 255,
    ;
    assert(d0 * d0 >= 0 && d1 * d1 >= 0 && d2 * d2 >= 0) by (nonlinear_arith);
    let mut distance: u32 = d0 * d0;
    if distance > FUZZ {
        return false;
    }
    distance = distance + d1 * d1;
    if distance > FUZZ {
        return false;
    }
    distance = distance + d2 * d2;
    if distance > FUZZ {
        return false;
    }
    true
}

fn column_differs_at(img: &RgbImage, x: u32, target: &Rgb) -> (found: bool)
    requires
        x < img.width(),
    ensures
        found == column_differs(*img, x as int, *target),
{
    let mut y: u32 = 0;
    while y < img.height()
        invariant
            x < img.width(),
            y <= img.height(),
            forall|k: int| 0 <= k < y ==> !#[trigger] differs(*img, x as int, k, *target),
        decreases img.height() - y,
    {
        if !fuzzy_match(&img.get_pixel(x, y), target) {
            assert(differs(*img, x as int, y as int, *target));
            return true;
        }
        y = y + 1;
    }
    false
}

fn row_differs_at(img: &RgbImage, y: u32, target: &Rgb) -> (found: bool)
    requires
        y < img.height(),
    ensures
        found == row_differs(*img, y as int, *target),
{
    let mut x: u32 = 0;
    while x < img.width()
        invariant
            y < img.height(),
            x <= img.width(),
            forall|k: int| 0 <= k < x ==> !#[trigger] differs(*img, k, y as int, *target),
        decreases img.width() - x,
    {
        if !fuzzy_match(&img.get_pixel(x, y), target) {
            assert(differs(*img, x as int, y as int, *target));
            return true;
        }
        x = x + 1;
    }
    false
}

fn first_differing_column(img: &RgbImage, target: &Rgb) -> (x: u32)
    ensures
        x == first_column_from(*img, *target, 0),
{
    let mut x: u32 = 0;
    while x < img.width()
        invariant
            x <= img.width(),
            first_column_from(*img, *target, 0) == first_column_from(*img, *target, x as int),
        decreases img.width() - x,
    {
        if column_differs_at(img, x, target) {
            return x;
        }
        x = x + 1;
    }
    x
}

fn last_differing_column(img: &RgbImage, target: &Rgb) -> (x: u32)
    ensures
        x == last_column_below(*img, *target, img.width() as int),
{
    let mut k: u32 = img.width();
    while k > 0
        invariant
            k <= img.width(),
            last_column_below(*img, *target, img.width() as int) == last_column_below(
                *img,
                *target,
                k as int,
            ),
        decreases k,
    {
        if column_differs_at(img, k - 1, target) {
            return k - 1;
        }
        k = k - 1;
    }
    0
}

fn first_differing_row(img: &RgbImage, target: &Rgb) -> (y: u32)
    ensures
        y == first_row_from(*img, *target, 0),
{
    let mut y: u32 = 0;
    while y < img.height()
        invariant
            y <= img.height(),
            first_row_from(*img, *target, 0) == first_row_from(*img, *target, y as int),
        decreases img.height() - y,
    {
        if row_differs_at(img, y, target) {
            return y;
        }
        y = y + 1;
    }
    y
}

fn last_differing_row(img: &RgbImage, target: &Rgb) -> (y: u32)
    ensures
        y == last_row_below(*img, *target, img.height() as int),
{
    let mut k: u32 = img.height();
    while k > 0
        invariant
            k <= img.height(),
            last_row_below(*img, *target, img.height() as int) == last_row_below(
                *img,
                *target,
                k as int,
            ),
        decreases k,
    {
        if row_differs_at(img, k - 1, target) {
            return k - 1;
        }
        k = k - 1;
    }
    0
}

/// The bounds of the picture in `img`, or `None` when the frame holds no
/// picture (see `content_bounds`).
pub fn bounding_box(img: &RgbImage) -> (found: Option<Bounds>)
    requires
        img.width() > 0,
        img.height() > 0,
    ensures
        found == content_bounds(*img),
{
    let w = img.width();
    let h = img.height();
    let target0 = img.get_pixel(0, 0);
    let target1 = img.get_pixel(w - 1, 0);
    let target2 = img.get_pixel(0, h - 1);
    let xx = first_differing_column(img, &target0);
    let width = last_differing_column(img, &target1);
    let yy = first_differing_row(img, &target0);
    let height = last_differing_row(img, &target2);
    if width == 0 && height == 0 {
        None
    } else {
        Some(
            Bounds {
                x: xx,
                y: yy,
                width: width.wrapping_sub(xx.wrapping_sub(1)),
                height: height.wrapping_sub(yy.wrapping_sub(1)),
            },
        )
    }
}

} // verus!
