//! Mapping a captured frame onto the LEDs around the screen.

pub mod blackborder;
pub mod strip;

use crate::frame::{channel, lemma_row_major, pixel_at, raw_offset, Rgb, RgbImage};
use crate::imageprocessing::strip::{oriented, order_strip, reversed, strip_order, unskipped};
use std::collections::HashMap;
use vstd::prelude::*;
use vstd::arithmetic::div_mod::{
    lemma_add_mod_noop_right, lemma_fundamental_div_mod, lemma_mod_multiples_vanish, lemma_mod_pos_bound,
    lemma_mod_self_0, lemma_mod_sub_multiples_vanish, lemma_mod_twice, lemma_small_mod,
};

verus! {

broadcast use vstd::std_specs::hash::group_hash_axioms;

/// The settings of an LED map: the strip runs around a `width` by `height`
/// frame, has `size` positions, starts `start_offset` positions in, leaves out
/// the `skip` positions that start at `skip_offset`, and may run backwards.
pub struct LedLayout {
    pub width: u32,
    pub height: u32,
    pub size: u32,
    pub start_offset: u32,
    pub skip: u32,
    pub skip_offset: u32,
    pub reverse: bool,
}

/// Where every LED of a strip around the screen reads its colour.
pub struct LedMap {
    width: u32,
    height: u32,
    size: u32,
    start_offset: u32,
    skip: u32,
    skip_offset: u32,
    reverse: bool,
    map: HashMap<u32, Option<(u32, u32)>>,
}

/// Whether perimeter position `i` has no LED. A run that passes the end of
/// the perimeter wraps round to its start.
pub open spec fn led_skipped(l: LedLayout, i: int) -> bool {
    if l.skip_offset + l.skip > l.size {
        i >= l.skip_offset || i < (l.skip_offset + l.skip) % (l.size as int)
    } else {
        l.skip_offset <= i < l.skip_offset + l.skip
    }
}

/// The pixel that perimeter position `i` reads: clockwise from the top-left
/// corner along the top row, down the right column, back along the bottom
/// row and up the left column. Each corner is read twice.
pub open spec fn perimeter_position(l: LedLayout, i: int) -> (int, int) {
    let w = l.width as int;
    let h = l.height as int;
    if i < w {
        (i, 0)
    } else if i < w + h {
        (w - 1, i - w)
    } else if i < 2 * w + h {
        (2 * w + h - i - 1, h - 1)
    } else {
        (0, 2 * w + 2 * h - i - 1)
    }
}

/// What perimeter position `i` holds: `None` where it has no LED, otherwise
/// the coordinates of the pixel it reads.
pub open spec fn led_slot(l: LedLayout, i: int) -> Option<(u32, u32)> {
    if led_skipped(l, i) {
        None
    } else {
        let (x, y) = perimeter_position(l, i);
        Some((x as u32, y as u32))
    }
}

/// The cache that holds the slot of every perimeter position.
pub open spec fn complete_cache(l: LedLayout) -> Map<u32, Option<(u32, u32)>> {
    Map::new(|i: u32| i < l.size, |i: u32| led_slot(l, i as int))
}

/// The strip positions that hash mapping visits first: the `n`-th position
/// of the strip is perimeter position `(n + start_offset) % size`.
pub open spec fn strip_position(l: LedLayout, n: int) -> int {
    (n + l.start_offset) % (l.size as int)
}

/// The colours of the first `n` strip positions, read from `img`; positions
/// without an LED give no colour.
pub open spec fn hash_walk(l: LedLayout, img: RgbImage, n: int) -> Seq<Rgb>
    decreases n,
{
    if n <= 0 {
        Seq::empty()
    } else {
        let before = hash_walk(l, img, n - 1);
        match led_slot(l, strip_position(l, n - 1)) {
            Some((x, y)) => before.push(img.pixel(x as int, y as int)),
            None => before,
        }
    }
}

/// The LED colours that hash mapping reads from an image of the layout's size.
pub open spec fn hash_readout(l: LedLayout, img: RgbImage) -> Seq<Rgb> {
    oriented(hash_walk(l, img, l.size as int), l.reverse)
}

/// The inputs on which hash mapping is defined: the position arithmetic
/// stays within `u32`, and every position with an LED lies on a frame with
/// both sides non-empty.
pub open spec fn hash_mappable(l: LedLayout) -> bool {
    &&& l.size == 0 || l.start_offset + l.size - 1 <= u32::MAX
    &&& l.size == 0 || l.skip_offset + l.skip <= u32::MAX
    &&& forall|i: int|
        0 <= i < l.size && !#[trigger] led_skipped(l, i) ==> l.width > 0 && l.height > 0
}

/// The frame border as row mapping reads it: the top row left to right, the
/// right column top to bottom between the corners, the bottom row right to
/// left, and the left column bottom to top between the corners.
pub open spec fn rows_border(img: RgbImage) -> Seq<Rgb> {
    let w = img.width() as int;
    let h = img.height() as int;
    Seq::new(w as nat, |x: int| img.pixel(x, 0)) + Seq::new(
        (h - 2) as nat,
        |k: int| img.pixel(w - 1, k + 1),
    ) + Seq::new(w as nat, |k: int| img.pixel(w - 1 - k, h - 1)) + Seq::new(
        (h - 2) as nat,
        |k: int| img.pixel(0, h - 2 - k),
    )
}

/// The frame border as pixel mapping reads it: the top row left to right,
/// the right column downwards from the second row, the bottom row right to
/// left between the corners, and the left column upwards from the bottom row
/// to the second row. A frame one pixel wide is read as its single column.
pub open spec fn pixels_border(img: RgbImage) -> Seq<Rgb> {
    let w = img.width() as int;
    let h = img.height() as int;
    if w == 0 {
        Seq::empty()
    } else if w == 1 {
        Seq::new(1, |x: int| img.pixel(x, 0)) + Seq::new((h - 1) as nat, |k: int| img.pixel(0, k + 1))
    } else {
        Seq::new(w as nat, |x: int| img.pixel(x, 0)) + Seq::new(
            (h - 1) as nat,
            |k: int| img.pixel(w - 1, k + 1),
        ) + Seq::new((w - 2) as nat, |k: int| img.pixel(w - 2 - k, h - 1)) + Seq::new(
            (h - 1) as nat,
            |k: int| img.pixel(0, h - 1 - k),
        )
    }
}

/// Whether the strip can be laid along `border`: the skipped run's end fits
/// a `u32` (when there is a border at all) and the start lies within the
/// pixels that remain.
pub open spec fn strip_fits(l: LedLayout, border: Seq<Rgb>) -> bool {
    &&& border.len() == 0 || l.skip_offset + l.skip <= u32::MAX
    &&& l.start_offset <= unskipped(border, l.skip_offset, l.skip).len()
}

/// The frames on which row mapping is defined: at least two rows, and at
/// least two columns when there are rows between the top and the bottom.
pub open spec fn rows_readable(img: RgbImage) -> bool {
    &&& img.height() >= 2
    &&& img.height() == 2 || img.width() >= 2
}

/// The frames on which pixel mapping is defined: at least two rows.
pub open spec fn pixels_readable(img: RgbImage) -> bool {
    img.height() >= 2
}

/// Whether `image::imageops::resize` can scale a `width` by `height` image to
/// `new_width` by `new_height` without panicking: the buffers it allocates
/// fit a `usize`, and no side shrinks from zero pixels to a non-zero count
/// while the other side has pixels (that would sample an empty row or
/// column).
pub open spec fn resizable(width: u32, height: u32, new_width: u32, new_height: u32) -> bool {
    &&& 3 * width <= usize::MAX
    &&& 3 * width * new_height <= usize::MAX
    &&& 3 * new_width <= usize::MAX
    &&& 3 * new_width * new_height <= usize::MAX
    &&& !(height == 0 && new_height > 0 && width > 0)
    &&& !(width == 0 && new_width > 0 && new_height > 0)
}

/// Scales interleaved RGB bytes with `image::imageops::resize` and the
/// Gaussian filter. The result is `new_width` by `new_height` pixels, and all
/// zero bytes scale to all zero bytes (every output value is a weighted sum of
/// input values divided by a positive weight sum). Nothing more is stated:
/// the weights come from `f32` arithmetic that includes `f32::exp`, whose
/// precision the standard library leaves to the platform, so the values are
/// not a function of the arguments alone.
#[verifier::external_body]
fn gaussian_resize(width: u32, height: u32, raw: Vec<u8>, new_width: u32, new_height: u32) -> (out:
    Vec<u8>)
    requires
        raw@.len() == 3 * width * height,
        resizable(width, height, new_width, new_height),
    ensures
        out@.len() == 3 * new_width * new_height,
        (forall|i: int| 0 <= i < raw@.len() ==> #[trigger] raw@[i] == 0) ==> (forall|j: int|
            0 <= j < out@.len() ==> #[trigger] out@[j] == 0),
{
    let src: image::ImageBuffer<image::Rgb<u8>, Vec<u8>> = image::ImageBuffer::from_raw(
        width,
        height,
        raw,
    ).unwrap();
    image::imageops::resize(&src, new_width, new_height, image::FilterType::Gaussian).into_raw()
}

/// Row mapping and pixel mapping walk the same border: on every frame that
/// row mapping can read, both read the same pixels in the same order.
pub proof fn lemma_row_and_pixel_borders_agree(img: RgbImage)
    requires
        rows_readable(img),
    ensures
        rows_border(img) == pixels_border(img),
{
    let w = img.width() as int;
    let h = img.height() as int;
    let a = rows_border(img);
    let b = pixels_border(img);
    if w == 0 {
        assert(a =~= b);
    } else if w == 1 {
        assert(a =~= b);
    } else {
        assert(a.len() == b.len());
        assert forall|k: int| 0 <= k < a.len() implies a[k] == b[k] by {
            if k < w {
            } else if k < w + h - 2 {
            } else if k == w + h - 2 {
            } else if k < 2 * w + h - 3 {
            } else if k == 2 * w + h - 3 {
            } else {
            }
        }
        assert(a =~= b);
    }
}

/// The same layout running the other way round.
pub open spec fn turned_around(l: LedLayout) -> LedLayout {
    LedLayout {
        width: l.width,
        height: l.height,
        size: l.size,
        start_offset: l.start_offset,
        skip: l.skip,
        skip_offset: l.skip_offset,
        reverse: !l.reverse,
    }
}

proof fn lemma_hash_walk_ignores_direction(l: LedLayout, img: RgbImage, n: int)
    ensures
        hash_walk(turned_around(l), img, n) == hash_walk(l, img, n),
    decreases n,
{
    if n > 0 {
        lemma_hash_walk_ignores_direction(l, img, n - 1);
    }
}

/// Turning the strip round reverses what hash mapping reads.
pub proof fn lemma_turning_around_reverses_hash_readout(l: LedLayout, img: RgbImage)
    ensures
        hash_readout(turned_around(l), img) == hash_readout(l, img).reverse(),
{
    let s = hash_walk(l, img, l.size as int);
    lemma_hash_walk_ignores_direction(l, img, l.size as int);
    if !l.reverse {
        assert(hash_readout(turned_around(l), img) == s.reverse());
    } else {
        assert(s.reverse().reverse() =~= s);
    }
}

/// The colour that perimeter position `i` reads from `img` (black where the
/// position has no LED).
pub open spec fn slot_colour(l: LedLayout, img: RgbImage, i: int) -> Rgb {
    match led_slot(l, i) {
        Some((x, y)) => img.pixel(x as int, y as int),
        None => Rgb([0u8, 0u8, 0u8]),
    }
}

/// The same layout with the strip starting `start` positions in.
pub open spec fn with_start(l: LedLayout, start: u32) -> LedLayout {
    LedLayout {
        width: l.width,
        height: l.height,
        size: l.size,
        start_offset: start,
        skip: l.skip,
        skip_offset: l.skip_offset,
        reverse: l.reverse,
    }
}

proof fn lemma_hash_walk_without_skip(l: LedLayout, img: RgbImage, n: int)
    requires
        l.skip == 0,
        l.skip_offset <= l.size,
        0 <= n,
    ensures
        hash_walk(l, img, n).len() == n,
        forall|j: int|
            0 <= j < n ==> #[trigger] hash_walk(l, img, n)[j] == slot_colour(
                l,
                img,
                strip_position(l, j),
            ),
    decreases n,
{
    if n > 0 {
        lemma_hash_walk_without_skip(l, img, n - 1);
        assert(!led_skipped(l, strip_position(l, n - 1)));
        let before = hash_walk(l, img, n - 1);
        let now = hash_walk(l, img, n);
        assert forall|j: int| 0 <= j < n implies #[trigger] now[j] == slot_colour(
            l,
            img,
            strip_position(l, j),
        ) by {
            if j < n - 1 {
                assert(now[j] == before[j]);
            }
        }
    }
}

/// With nothing skipped, hash mapping reads a colour for every position of
/// the perimeter.
pub proof fn lemma_hash_readout_covers_perimeter(l: LedLayout, img: RgbImage)
    requires
        l.skip == 0,
        l.skip_offset <= l.size,
    ensures
        hash_readout(l, img).len() == l.size,
{
    lemma_hash_walk_without_skip(l, img, l.size as int);
}

/// Every pixel of `img` has the colour `c`.
pub open spec fn uniform_frame(img: RgbImage, c: Rgb) -> bool {
    forall|x: int, y: int|
        0 <= x < img.width() && 0 <= y < img.height() ==> #[trigger] img.pixel(x, y) == c
}

/// Every colour in `s` is `c`.
pub open spec fn uniform_colours(s: Seq<Rgb>, c: Rgb) -> bool {
    forall|k: int| 0 <= k < s.len() ==> #[trigger] s[k] == c
}

proof fn lemma_uniform_frame_hash_walk(l: LedLayout, img: RgbImage, c: Rgb, n: int)
    requires
        hash_mappable(l),
        l.size == 2 * l.width + 2 * l.height,
        img.width() == l.width,
        img.height() == l.height,
        uniform_frame(img, c),
        0 <= n <= l.size,
    ensures
        uniform_colours(hash_walk(l, img, n), c),
    decreases n,
{
    if n > 0 {
        lemma_uniform_frame_hash_walk(l, img, c, n - 1);
        let i = strip_position(l, n - 1);
        lemma_mod_pos_bound(n - 1 + l.start_offset, l.size as int);
        let before = hash_walk(l, img, n - 1);
        let now = hash_walk(l, img, n);
        if !led_skipped(l, i) {
            let (x, y) = perimeter_position(l, i);
            assert(0 <= x < l.width && 0 <= y < l.height);
            assert(now[now.len() - 1] == img.pixel(x, y));
        }
        assert forall|k: int| 0 <= k < now.len() implies #[trigger] now[k] == c by {
            if k < before.len() {
                assert(now[k] == before[k]);
            }
        }
    }
}

/// A frame of a single colour lights every LED in that colour.
pub proof fn lemma_uniform_frame_hash_readout(l: LedLayout, img: RgbImage, c: Rgb)
    requires
        hash_mappable(l),
        l.size == 2 * l.width + 2 * l.height,
        img.width() == l.width,
        img.height() == l.height,
        uniform_frame(img, c),
    ensures
        uniform_colours(hash_readout(l, img), c),
{
    lemma_uniform_frame_hash_walk(l, img, c, l.size as int);
    let s = hash_walk(l, img, l.size as int);
    if l.reverse {
        assert forall|k: int| 0 <= k < s.reverse().len() implies #[trigger] s.reverse()[k] == c by {
            assert(s.reverse()[k] == s[s.len() - 1 - k]);
        }
    }
}

/// With nothing skipped, starting the strip `s` positions in rotates what
/// hash mapping reads: LED `j` shows what LED `(j + s) % size` shows when the
/// strip starts at position 0.
pub proof fn lemma_start_offset_rotates_hash_readout(l: LedLayout, img: RgbImage, s: u32)
    requires
        l.skip == 0,
        l.skip_offset <= l.size,
        !l.reverse,
        s < l.size,
    ensures
        hash_readout(with_start(l, s), img).len() == l.size,
        hash_readout(with_start(l, 0), img).len() == l.size,
        forall|j: int|
            0 <= j < l.size ==> #[trigger] hash_readout(with_start(l, s), img)[j] == hash_readout(
                with_start(l, 0),
                img,
            )[(j + s) % (l.size as int)],
{
    let ls = with_start(l, s);
    let l0 = with_start(l, 0);
    let n = l.size as int;
    lemma_hash_walk_without_skip(ls, img, n);
    lemma_hash_walk_without_skip(l0, img, n);
    assert forall|j: int| 0 <= j < n implies #[trigger] hash_readout(ls, img)[j] == hash_readout(
        l0,
        img,
    )[(j + s) % n] by {
        let k = (j + s) % n;
        lemma_mod_pos_bound(j + s, n);
        lemma_mod_twice(j + s, n);
        assert(strip_position(l0, k) == k);
        assert(strip_position(ls, j) == k);
        assert(hash_readout(ls, img)[j] == hash_walk(ls, img, n)[j]);
        assert(hash_readout(l0, img)[k] == hash_walk(l0, img, n)[k]);
    }
}

/// How many perimeter positions in `[a, b)` carry an LED.
pub open spec fn lit_count(l: LedLayout, a: int, b: int) -> int
    decreases b - a,
{
    if b <= a {
        0
    } else {
        lit_count(l, a, b - 1) + if led_skipped(l, b - 1) {
            0int
        } else {
            1int
        }
    }
}

/// How many of the first `n` strip positions carry an LED.
pub open spec fn walk_lit_count(l: LedLayout, n: int) -> int
    decreases n,
{
    if n <= 0 {
        0
    } else {
        walk_lit_count(l, n - 1) + if led_skipped(l, strip_position(l, n - 1)) {
            0int
        } else {
            1int
        }
    }
}

proof fn lemma_hash_walk_len(l: LedLayout, img: RgbImage, n: int)
    ensures
        hash_walk(l, img, n).len() == walk_lit_count(l, n),
    decreases n,
{
    if n > 0 {
        lemma_hash_walk_len(l, img, n - 1);
    }
}

proof fn lemma_lit_count_split(l: LedLayout, a: int, b: int, c: int)
    requires
        a <= b <= c,
    ensures
        lit_count(l, a, c) == lit_count(l, a, b) + lit_count(l, b, c),
    decreases c - b,
{
    if c > b {
        lemma_lit_count_split(l, a, b, c - 1);
    }
}

proof fn lemma_lit_count_all_skipped(l: LedLayout, a: int, b: int)
    requires
        a <= b,
        forall|i: int| a <= i < b ==> #[trigger] led_skipped(l, i),
    ensures
        lit_count(l, a, b) == 0,
    decreases b - a,
{
    if b > a {
        lemma_lit_count_all_skipped(l, a, b - 1);
    }
}

proof fn lemma_lit_count_none_skipped(l: LedLayout, a: int, b: int)
    requires
        a <= b,
        forall|i: int| a <= i < b ==> !#[trigger] led_skipped(l, i),
    ensures
        lit_count(l, a, b) == b - a,
    decreases b - a,
{
    if b > a {
        lemma_lit_count_none_skipped(l, a, b - 1);
    }
}

/// The strip visits the perimeter positions from `start % size` onwards and
/// wraps round to position 0.
proof fn lemma_walk_lit_count_rotates(l: LedLayout, n: int)
    requires
        l.size > 0,
        0 <= n <= l.size,
    ensures
        ({
            let d = l.size as int;
            let s = (l.start_offset as int) % d;
            walk_lit_count(l, n) == if n <= d - s {
                lit_count(l, s, s + n)
            } else {
                lit_count(l, s, d) + lit_count(l, 0, n - (d - s))
            }
        }),
    decreases n,
{
    let d = l.size as int;
    let s = (l.start_offset as int) % d;
    lemma_mod_pos_bound(l.start_offset as int, d);
    if n > 0 {
        lemma_walk_lit_count_rotates(l, n - 1);
        lemma_add_mod_noop_right(n - 1, l.start_offset as int, d);
        assert(strip_position(l, n - 1) == (n - 1 + s) % d);
        if n - 1 < d - s {
            lemma_small_mod((n - 1 + s) as nat, d as nat);
            assert(strip_position(l, n - 1) == n - 1 + s);
        } else {
            lemma_mod_sub_multiples_vanish(n - 1 + s, d);
            lemma_small_mod((n - 1 + s - d) as nat, d as nat);
            assert(strip_position(l, n - 1) == n - 1 + s - d);
        }
    }
}

/// With the skipped run inside one round of the perimeter, hash mapping
/// reads one colour for every position that carries an LED: `size - skip`
/// of them.
pub proof fn lemma_hash_readout_len(l: LedLayout, img: RgbImage)
    requires
        l.skip_offset < l.size,
        l.skip <= l.size,
    ensures
        hash_readout(l, img).len() == l.size - l.skip,
{
    let d = l.size as int;
    let so = l.skip_offset as int;
    let sk = l.skip as int;
    let s = (l.start_offset as int) % d;
    lemma_mod_pos_bound(l.start_offset as int, d);
    lemma_hash_walk_len(l, img, d);
    lemma_walk_lit_count_rotates(l, d);
    if s > 0 {
        lemma_lit_count_split(l, 0, s, d);
    }
    assert(walk_lit_count(l, d) == lit_count(l, 0, d));
    if so + sk > d {
        let e = so + sk - d;
        lemma_mod_sub_multiples_vanish(so + sk, d);
        lemma_small_mod(e as nat, d as nat);
        assert((so + sk) % d == e);
        lemma_lit_count_split(l, 0, e, so);
        lemma_lit_count_split(l, 0, so, d);
        lemma_lit_count_split(l, e, so, d);
        lemma_lit_count_all_skipped(l, 0, e);
        lemma_lit_count_none_skipped(l, e, so);
        lemma_lit_count_all_skipped(l, so, d);
    } else {
        lemma_lit_count_split(l, 0, so, d);
        lemma_lit_count_split(l, so, so + sk, d);
        lemma_lit_count_none_skipped(l, 0, so);
        lemma_lit_count_all_skipped(l, so, so + sk);
        lemma_lit_count_none_skipped(l, so + sk, d);
    }
}

/// Pixel `(x, y)` lies on the border of a `w` by `h` frame.
pub open spec fn on_border(w: int, h: int, x: int, y: int) -> bool {
    &&& 0 <= x < w
    &&& 0 <= y < h
    &&& x == 0 || x == w - 1 || y == 0 || y == h - 1
}

/// The perimeter walk is a closed loop round the frame's border: every
/// position reads a border pixel, consecutive positions (the last one
/// followed by the first) read the same or side-by-side pixels, the walk
/// starts at the top-left pixel heading right along the top row, and it
/// reaches every border pixel.
pub proof fn lemma_perimeter_walk_is_a_loop(l: LedLayout)
    requires
        l.width >= 1,
        l.height >= 1,
        l.size == 2 * l.width + 2 * l.height,
    ensures
        perimeter_position(l, 0) == (0int, 0int),
        l.width > 1 ==> perimeter_position(l, 1) == (1int, 0int),
        forall|i: int|
            0 <= i < l.size ==> {
                let (x, y) = #[trigger] perimeter_position(l, i);
                on_border(l.width as int, l.height as int, x, y)
            },
        forall|i: int|
            0 <= i < l.size ==> {
                let (x, y) = #[trigger] perimeter_position(l, i);
                let (x2, y2) = perimeter_position(l, (i + 1) % (l.size as int));
                &&& -1 <= x2 - x <= 1
                &&& -1 <= y2 - y <= 1
                &&& x2 == x || y2 == y
            },
        forall|x: int, y: int|
            #[trigger] on_border(l.width as int, l.height as int, x, y) ==> exists|i: int|
                0 <= i < l.size && #[trigger] perimeter_position(l, i) == (x, y),
{
    let w = l.width as int;
    let h = l.height as int;
    let d = l.size as int;
    assert forall|i: int| 0 <= i < d implies {
        let (x, y) = #[trigger] perimeter_position(l, i);
        let (x2, y2) = perimeter_position(l, (i + 1) % d);
        &&& -1 <= x2 - x <= 1
        &&& -1 <= y2 - y <= 1
        &&& x2 == x || y2 == y
    } by {
        if i + 1 < d {
            lemma_small_mod((i + 1) as nat, d as nat);
        } else {
            lemma_mod_self_0(d);
        }
    }
    assert forall|x: int, y: int| #[trigger] on_border(w, h, x, y) implies exists|i: int|
        0 <= i < d && #[trigger] perimeter_position(l, i) == (x, y) by {
        if y == 0 {
            assert(perimeter_position(l, x) == (x, y));
        } else if x == w - 1 {
            assert(perimeter_position(l, w + y) == (x, y));
        } else if y == h - 1 {
            assert(perimeter_position(l, 2 * w + h - x - 1) == (x, y));
        } else {
            assert(perimeter_position(l, 2 * w + 2 * h - y - 1) == (x, y));
        }
    }
}

/// With nothing skipped, the strip starting at position 0 and running
/// forwards, LED `j` shows the pixel at perimeter position `j`.
pub proof fn lemma_hash_readout_follows_perimeter(l: LedLayout, img: RgbImage)
    requires
        l.skip == 0,
        l.skip_offset <= l.size,
        l.start_offset == 0,
        !l.reverse,
        l.width >= 1,
        l.height >= 1,
        l.size == 2 * l.width + 2 * l.height,
    ensures
        hash_readout(l, img).len() == l.size,
        forall|j: int|
            0 <= j < l.size ==> #[trigger] hash_readout(l, img)[j] == img.pixel(
                perimeter_position(l, j).0,
                perimeter_position(l, j).1,
            ),
{
    let d = l.size as int;
    lemma_hash_walk_without_skip(l, img, d);
    lemma_perimeter_walk_is_a_loop(l);
    assert forall|j: int| 0 <= j < d implies #[trigger] hash_readout(l, img)[j] == img.pixel(
        perimeter_position(l, j).0,
        perimeter_position(l, j).1,
    ) by {
        lemma_small_mod(j as nat, d as nat);
        assert(strip_position(l, j) == j);
        assert(!led_skipped(l, j));
        let (x, y) = perimeter_position(l, j);
        assert(on_border(l.width as int, l.height as int, x, y));
        assert(hash_readout(l, img)[j] == hash_walk(l, img, d)[j]);
    }
}

impl View for LedMap {
    type V = LedLayout;

    closed spec fn view(&self) -> LedLayout {
        LedLayout {
            width: self.width,
            height: self.height,
            size: self.size,
            start_offset: self.start_offset,
            skip: self.skip,
            skip_offset: self.skip_offset,
            reverse: self.reverse,
        }
    }
}

impl LedMap {
    /// The cached slots of the perimeter positions visited so far.
    pub closed spec fn cached(&self) -> Map<u32, Option<(u32, u32)>> {
        self.map@
    }

    /// The perimeter has `2 * width + 2 * height` positions and every cached
    /// entry is the slot of a perimeter position.
    pub closed spec fn wf(&self) -> bool {
        &&& self.size == 2 * self.width + 2 * self.height
        &&& forall|i: u32| #[trigger]
            self.map@.contains_key(i) ==> i < self.size && self.map@[i] == led_slot(self@, i as int)
    }

    pub fn init(
        w: u32,
        h: u32,
        start: u32,
        skip: Option<u32>,
        skip_offset: Option<u32>,
        reverse: bool,
    ) -> (m: LedMap)
        requires
            2 * w + 2 * h <= u32::MAX,
        ensures
            m.wf(),
            m@ == (LedLayout {
                width: w,
                height: h,
                size: (2 * w + 2 * h) as u32,
                start_offset: start,
                skip: skip.unwrap_or(0),
                skip_offset: skip_offset.unwrap_or(0),
                reverse,
            }),
            m.cached() == Map::<u32, Option<(u32, u32)>>::empty(),
    {
        LedMap {
            width: w,
            height: h,
            size: 2 * w + 2 * h,
            start_offset: start,
            skip: skip.unwrap_or(0),
            skip_offset: skip_offset.unwrap_or(0),
            reverse,
            map: HashMap::with_capacity((2 * w + 2 * h) as usize),
        }
    }

    /// Whether perimeter position `i` has no LED.
    fn position_skipped(&self, i: u32) -> (skipped: bool)
        requires
            self.size > 0,
            self.skip_offset + self.skip <= u32::MAX,
        ensures
            skipped == led_skipped(self@, i as int),
    {
        if self.skip_offset + self.skip > self.size {
            i >= self.skip_offset || i < (self.skip_offset + self.skip) % self.size
        } else {
            i >= self.skip_offset && i < self.skip_offset + self.skip
        }
    }

    /// Whether `map_hash` is defined on this map and `img` (see
    /// `hash_mappable` and `resizable`).
    pub fn can_map_hash(&self, img: &RgbImage) -> (ok: bool)
        requires
            self.wf(),
        ensures
            ok == (hash_mappable(self@) && resizable(
                img.width(),
                img.height(),
                self@.width,
                self@.height,
            )),
    {
        let iw = img.width();
        let ih = img.height();
        let w = self.width;
        let h = self.height;
        let fits = match (3 * iw as usize).checked_mul(h as usize) {
            None => false,
            Some(_) => match 3usize.checked_mul(w as usize) {
                None => false,
                Some(n) => n.checked_mul(h as usize).is_some(),
            },
        };
        let resizes = fits && !(ih == 0 && h > 0 && iw > 0) && !(iw == 0 && w > 0 && h > 0);
        if !resizes {
            return false;
        }
        if self.size == 0 {
            return true;
        }
        if self.start_offset as u64 + self.size as u64 - 1 > u32::MAX as u64 {
            return false;
        }
        if self.skip_offset as u64 + self.skip as u64 > u32::MAX as u64 {
            return false;
        }
        if w > 0 && h > 0 {
            return true;
        }
        let mut i: u32 = 0;
        while i < self.size
            invariant
                i <= self.size,
                self.size > 0,
                self.skip_offset + self.skip <= u32::MAX,
                !(w > 0 && h > 0),
                w == self@.width,
                h == self@.height,
                forall|k: int| 0 <= k < i ==> #[trigger] led_skipped(self@, k),
            decreases self.size - i,
        {
            if !self.position_skipped(i) {
                return false;
            }
            i = i + 1;
        }
        true
    }

    /// Reads the LED colours from a frame already scaled to the layout's
    /// `width` by `height`, and fills the slot cache as it goes.
    pub fn map_scaled(&mut self, img: &RgbImage) -> (res: Vec<Rgb>)
        requires
            old(self).wf(),
            hash_mappable(old(self)@),
            img.width() == old(self)@.width,
            img.height() == old(self)@.height,
        ensures
            final(self).wf(),
            final(self)@ == old(self)@,
            final(self).cached() == complete_cache(old(self)@),
            res@ == hash_readout(old(self)@, *img),
    {
        let ghost l = self@;
        let mut res: Vec<Rgb> = Vec::with_capacity(self.size as usize);
        let mut j: u32 = 0;
        while j < self.size
            invariant
                self.wf(),
                self@ == l,
                hash_mappable(l),
                img.width() == l.width,
                img.height() == l.height,
                j <= l.size,
                res@ == hash_walk(l, *img, j as int),
                forall|i: u32| #[trigger]
                    self.map@.contains_key(i) <== exists|n: int|
                        0 <= n < j && i == #[trigger] strip_position(l, n),
            decreases l.size - j,
        {
            let i = (j + self.start_offset) % self.size;
            assert(i == strip_position(l, j as int));
            let cached: Option<Option<(u32, u32)>> = match self.map.get(&i) {
                Some(v) => Some(*v),
                None => None,
            };
            match cached {
                Some(slot) => {
                    if let Some(coords) = slot {
                        assert(!led_skipped(l, i as int));
                        res.push(img.get_pixel(coords.0, coords.1));
                    }
                },
                None => {
                    if self.position_skipped(i) {
                        self.map.insert(i, None);
                    } else {
                        assert(!led_skipped(l, i as int));
                        let x;
                        let y;
                        if i < self.width {
                            x = i;
                            y = 0;
                        } else if i < self.width + self.height {
                            x = self.width - 1;
                            y = i - self.width;
                        } else if i < 2 * self.width + self.height {
                            x = 2 * self.width + self.height - i - 1;
                            y = self.height - 1;
                        } else {
                            x = 0;
                            y = 2 * self.width + 2 * self.height - i - 1;
                        }
                        self.map.insert(i, Some((x, y)));
                        res.push(img.get_pixel(x, y));
                    }
                },
            }
            proof {
                assert forall|k: u32|
                    (exists|n: int| 0 <= n < j + 1 && k == #[trigger] strip_position(l, n)) implies
                    #[trigger] self.map@.contains_key(k) by {
                    let n = choose|n: int| 0 <= n < j + 1 && k == #[trigger] strip_position(l, n);
                    if n < j {
                        assert(exists|n: int| 0 <= n < j && k == #[trigger] strip_position(l, n));
                    }
                }
            }
            j = j + 1;
        }
        proof {
            assert forall|i: u32| i < l.size implies #[trigger] self.map@.contains_key(i) by {
                let d = l.size as int;
                let n = (i - l.start_offset) % d;
                let q = (i - l.start_offset) / d;
                lemma_fundamental_div_mod(i - l.start_offset, d);
                assert(n + l.start_offset == d * (-q) + i) by (nonlinear_arith)
                    requires
                        i - l.start_offset == d * q + n,
                ;
                lemma_mod_multiples_vanish(-q, i as int, d);
                lemma_small_mod(i as nat, d as nat);
                assert(strip_position(l, n) == i);
            }
            assert(self.map@ =~= complete_cache(l));
        }
        if self.reverse {
            reversed(&res)
        } else {
            res
        }
    }

    /// Reads the border of `img` row by row, then orders it along the strip.
    pub fn map_rows(&mut self, img: &RgbImage) -> (res: Vec<Rgb>)
        requires
            rows_readable(*img),
            strip_fits(old(self)@, rows_border(*img)),
        ensures
            *final(self) == *old(self),
            res@ == strip_order(
                rows_border(*img),
                old(self)@.start_offset,
                old(self)@.skip_offset,
                old(self)@.skip,
                old(self)@.reverse,
            ),
    {
        let w = img.width();
        let h = img.height();
        let ghost wi = w as int;
        let ghost hi = h as int;
        let mut left: Vec<Rgb> = Vec::with_capacity((h - 2) as usize);
        let mut border: Vec<Rgb> = Vec::new();
        let mut x: u32 = 0;
        while x < w
            invariant
                x <= w,
                w == img.width(),
                h == img.height(),
                wi == w,
                hi == h,
                h >= 2,
                border@ =~= Seq::new(x as nat, |i: int| img.pixel(i, 0)),
            decreases w - x,
        {
            border.push(img.get_pixel(x, 0));
            x = x + 1;
        }
        let ghost top = border@;
        let mut y: u32 = 1;
        while y < h - 1
            invariant
                1 <= y <= h - 1,
                w == img.width(),
                h == img.height(),
                wi == w,
                hi == h,
                rows_readable(*img),
                top == Seq::new(w as nat, |i: int| img.pixel(i, 0)),
                border@ =~= top + Seq::new((y - 1) as nat, |k: int| img.pixel(wi - 1, k + 1)),
                left@ =~= Seq::new((y - 1) as nat, |k: int| img.pixel(0, k + 1)),
            decreases h - y,
        {
            left.push(img.get_pixel(0, y));
            border.push(img.get_pixel(w - 1, y));
            y = y + 1;
        }
        let ghost top_right = border@;
        let mut k: u32 = 0;
        while k < w
            invariant
                k <= w,
                w == img.width(),
                h == img.height(),
                wi == w,
                hi == h,
                h >= 2,
                border@ =~= top_right + Seq::new(k as nat, |i: int| img.pixel(wi - 1 - i, hi - 1)),
            decreases w - k,
        {
            border.push(img.get_pixel(w - 1 - k, h - 1));
            k = k + 1;
        }
        let mut left = reversed(&left);
        border.append(&mut left);
        assert(border@ =~= rows_border(*img));
        order_strip(&border, self.start_offset, self.skip_offset, self.skip, self.reverse)
    }

    /// Reads the border of `img` pixel by pixel, then orders it along the strip.
    pub fn map_pixels(&mut self, img: &RgbImage) -> (res: Vec<Rgb>)
        requires
            pixels_readable(*img),
            strip_fits(old(self)@, pixels_border(*img)),
        ensures
            *final(self) == *old(self),
            res@ == strip_order(
                pixels_border(*img),
                old(self)@.start_offset,
                old(self)@.skip_offset,
                old(self)@.skip,
                old(self)@.reverse,
            ),
    {
        let w = img.width();
        let h = img.height();
        let ghost wi = w as int;
        let ghost hi = h as int;
        let mut border: Vec<Rgb> = Vec::new();
        if w > 0 {
            let mut x: u32 = 0;
            while x < w
                invariant
                    x <= w,
                    w == img.width(),
                    h == img.height(),
                    wi == w,
                    hi == h,
                    h >= 2,
                    border@ =~= Seq::new(x as nat, |i: int| img.pixel(i, 0)),
                decreases w - x,
            {
                border.push(img.get_pixel(x, 0));
                x = x + 1;
            }
            let ghost top = border@;
            let mut y: u32 = 1;
            while y < h
                invariant
                    1 <= y <= h,
                    w == img.width(),
                    h == img.height(),
                    wi == w,
                    hi == h,
                    w > 0,
                    border@ =~= top + Seq::new((y - 1) as nat, |k: int| img.pixel(wi - 1, k + 1)),
                decreases h - y,
            {
                border.push(img.get_pixel(w - 1, y));
                y = y + 1;
            }
            if w >= 2 {
                let ghost top_right = border@;
                let mut bottom: Vec<Rgb> = Vec::new();
                let mut x: u32 = 1;
                while x < w - 1
                    invariant
                        1 <= x <= w - 1,
                        w == img.width(),
                        h == img.height(),
                        wi == w,
                        hi == h,
                        w >= 2,
                        h >= 2,
                        bottom@ =~= Seq::new((x - 1) as nat, |i: int| img.pixel(i + 1, hi - 1)),
                    decreases w - x,
                {
                    bottom.push(img.get_pixel(x, h - 1));
                    x = x + 1;
                }
                let mut left: Vec<Rgb> = Vec::new();
                let mut y: u32 = 1;
                while y < h
                    invariant
                        1 <= y <= h,
                        w == img.width(),
                        h == img.height(),
                        wi == w,
                        hi == h,
                        w >= 2,
                        left@ =~= Seq::new((y - 1) as nat, |k: int| img.pixel(0, k + 1)),
                    decreases h - y,
                {
                    left.push(img.get_pixel(0, y));
                    y = y + 1;
                }
                let mut bottom = reversed(&bottom);
                let mut left = reversed(&left);
                border.append(&mut bottom);
                border.append(&mut left);
            }
        }
        assert(border@ =~= pixels_border(*img));
        order_strip(&border, self.start_offset, self.skip_offset, self.skip, self.reverse)
    }

    /// Scales `img` to the layout's `width` by `height` with a Gaussian
    /// filter, then reads the LED colours from the scaled frame (see
    /// `map_scaled`).
    pub fn map_hash(&mut self, img: &RgbImage) -> (res: Vec<Rgb>)
        requires
            old(self).wf(),
            hash_mappable(old(self)@),
            resizable(img.width(), img.height(), old(self)@.width, old(self)@.height),
        ensures
            final(self).wf(),
            final(self)@ == old(self)@,
            final(self).cached() == complete_cache(old(self)@),
            exists|scaled: RgbImage|
                scaled.width() == old(self)@.width && scaled.height() == old(self)@.height && res@
                    == hash_readout(old(self)@, scaled),
            uniform_frame(*img, Rgb([0u8, 0u8, 0u8])) ==> uniform_colours(res@, Rgb([0u8, 0u8, 0u8])),
    {
        let ghost l = self@;
        let raw = img.to_raw();
        let ghost raw_bytes = raw@;
        let out = gaussian_resize(img.width(), img.height(), raw, self.width, self.height);
        let ghost out_bytes = out@;
        let scaled = match RgbImage::from_raw(self.width, self.height, out) {
            Some(scaled) => scaled,
            None => {
                proof {
                    assert(false);
                }
                return Vec::new();
            },
        };
        proof {
            if uniform_frame(*img, Rgb([0u8, 0u8, 0u8])) {
                assert forall|i: int| 0 <= i < raw_bytes.len() implies #[trigger] raw_bytes[i] == 0 by {
                    assert(img.holds_channel(raw_bytes[i]));
                    let (x, y, c) = choose|x: int, y: int, c: int|
                        0 <= x < img.width() && 0 <= y < img.height() && 0 <= c < 3
                            && #[trigger] channel(img.pixel(x, y), c) == raw_bytes[i];
                    assert(img.pixel(x, y) == Rgb([0u8, 0u8, 0u8]));
                }
                assert forall|x: int, y: int|
                    0 <= x < scaled.width() && 0 <= y < scaled.height() implies #[trigger] scaled.pixel(
                    x,
                    y,
                ) == Rgb([0u8, 0u8, 0u8]) by {
                    lemma_row_major(l.width as int, l.height as int, x, y);
                    let k = raw_offset(l.width as int, x, y);
                    assert(out_bytes[k] == 0 && out_bytes[k + 1] == 0 && out_bytes[k + 2] == 0);
                    assert(pixel_at(out_bytes, k) == Rgb([0u8, 0u8, 0u8]));
                }
                lemma_uniform_frame_hash_readout(l, scaled, Rgb([0u8, 0u8, 0u8]));
            }
        }
        self.map_scaled(&scaled)
    }
}

} // verus!
