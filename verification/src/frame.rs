//! Frames: RGB images stored row by row.

use vstd::prelude::*;

verus! {

/// One RGB pixel with 8 bits per channel.
#[derive(Clone, Copy, Debug, PartialEq, Eq)]
pub struct Rgb(pub [u8; 3]);

/// The pixel whose three channels start at byte `k` of an interleaved buffer.
pub open spec fn pixel_at(buf: Seq<u8>, k: int) -> Rgb {
    Rgb([buf[k], buf[k + 1], buf[k + 2]])
}

/// Channel `c` (0 red, 1 green, 2 blue) of `p`.
pub open spec fn channel(p: Rgb, c: int) -> u8 {
    p.0[c]
}

/// Offset of the first channel of pixel `(x, y)` in the interleaved,
/// row-major byte layout of an image that is `w` pixels wide.
pub open spec fn raw_offset(w: int, x: int, y: int) -> int {
    3 * (y * w + x)
}

/// Row-major indexing stays inside a `w` by `h` grid.
pub proof fn lemma_row_major(w: int, h: int, x: int, y: int)
    by (nonlinear_arith)
    requires
        0 <= x < w,
        0 <= y < h,
    ensures
        0 <= y * w + x,
        y * w + x + 1 <= h * w,
        y * w + w == (y + 1) * w,
        3 * (h * w) == 3 * w * h,
{
}

/// A block no larger than an image that fits memory fits too.
proof fn lemma_smaller_fits(w: int, h: int, w2: int, h2: int)
    by (nonlinear_arith)
    requires
        0 <= w2 <= w,
        0 <= h2 <= h,
        3 * w * h <= usize::MAX,
        3 * w <= usize::MAX,
    ensures
        3 * w2 * h2 <= usize::MAX,
        3 * w2 <= usize::MAX,
{
    assert(3 * w2 * h2 <= 3 * w * h2);
    assert(3 * w * h2 <= 3 * w * h);
}

fn rgb_from_bytes(buf: &Vec<u8>, k: usize) -> (p: Rgb)
    requires
        k + 3 <= buf.len(),
    ensures
        p == pixel_at(buf@, k as int),
{
    Rgb([buf[k], buf[k + 1], buf[k + 2]])
}

/// An RGB image of `width` by `height` pixels, held as `height` rows of
/// `width` pixels each.
pub struct RgbImage {
    width: u32,
    height: u32,
    rows: Vec<Vec<Rgb>>,
}

impl RgbImage {
    #[verifier::type_invariant]
    spec fn shape_ok(self) -> bool {
        &&& self.rows@.len() == self.height
        &&& forall|y: int| 0 <= y < self.height ==> #[trigger] self.rows@[y]@.len() == self.width
        &&& 3 * self.width <= usize::MAX
        &&& 3 * self.width * self.height <= usize::MAX
    }

    pub closed spec fn spec_width(&self) -> u32 {
        self.width
    }

    pub closed spec fn spec_height(&self) -> u32 {
        self.height
    }

    /// The pixel in column `x` of row `y`.
    pub closed spec fn pixel(&self, x: int, y: int) -> Rgb {
        self.rows@[y]@[x]
    }

    /// Two images hold the same picture: same size, same pixels.
    pub open spec fn same_picture(&self, other: &RgbImage) -> bool {
        &&& self.spec_width() == other.spec_width()
        &&& self.spec_height() == other.spec_height()
        &&& forall|x: int, y: int|
            0 <= x < self.spec_width() && 0 <= y < self.spec_height() ==> #[trigger] self.pixel(x, y)
                == #[trigger] other.pixel(x, y)
    }

    /// Byte `b` is a channel of some pixel of the image.
    pub open spec fn holds_channel(&self, b: u8) -> bool {
        exists|x: int, y: int, c: int|
            0 <= x < self.spec_width() && 0 <= y < self.spec_height() && 0 <= c < 3
                && #[trigger] channel(self.pixel(x, y), c) == b
    }

    /// Whether `buf` decodes into a `width` by `height` image: its
    /// interleaved size fits a `usize` and `buf` holds at least that many bytes.
    pub open spec fn raw_fits(width: u32, height: u32, len: int) -> bool {
        &&& 3 * width <= usize::MAX
        &&& 3 * width * height <= usize::MAX
        &&& 3 * width * height <= len
    }

    #[verifier::when_used_as_spec(spec_width)]
    pub fn width(&self) -> (r: u32)
        ensures
            r == self.spec_width(),
            3 * r <= usize::MAX,
            3 * r * self.spec_height() <= usize::MAX,
    {
        proof {
            use_type_invariant(self);
        }
        self.width
    }

    #[verifier::when_used_as_spec(spec_height)]
    pub fn height(&self) -> (r: u32)
        ensures
            r == self.spec_height(),
            3 * self.spec_width() <= usize::MAX,
            3 * self.spec_width() * r <= usize::MAX,
    {
        proof {
            use_type_invariant(self);
        }
        self.height
    }

    pub fn get_pixel(&self, x: u32, y: u32) -> (p: Rgb)
        requires
            x < self.width(),
            y < self.height(),
        ensures
            p == self.pixel(x as int, y as int),
    {
        proof {
            use_type_invariant(self);
        }
        self.rows[y as usize][x as usize]
    }

    /// Reads a `width` by `height` image from interleaved, row-major RGB bytes.
    /// Returns `None` when the buffer is too short for that size; bytes past
    /// the image are ignored.
    pub fn from_raw(width: u32, height: u32, buf: Vec<u8>) -> (res: Option<RgbImage>)
        ensures
            res is Some <==> Self::raw_fits(width, height, buf@.len() as int),
            res matches Some(img) ==> {
                &&& img.width() == width
                &&& img.height() == height
                &&& forall|x: int, y: int|
                    0 <= x < width && 0 <= y < height ==> #[trigger] img.pixel(x, y) == pixel_at(
                        buf@,
                        raw_offset(width as int, x, y),
                    )
            },
    {
        let needed = match 3usize.checked_mul(width as usize) {
            Some(n) => n.checked_mul(height as usize),
            None => None,
        };
        let needed = match needed {
            Some(n) => n,
            None => {
                return None;
            },
        };
        if needed > buf.len() {
            return None;
        }
        let ghost w = width as int;
        let ghost h = height as int;
        let mut rows: Vec<Vec<Rgb>> = Vec::new();
        let mut k: usize = 0;
        let mut y: u32 = 0;
        while y < height
            invariant
                y <= height,
                needed == 3 * w * h,
                needed <= buf@.len(),
                w == width,
                h == height,
                k == 3 * (y * w),
                rows@.len() == y,
                forall|j: int| 0 <= j < y ==> #[trigger] rows@[j]@.len() == width,
                forall|i: int, j: int|
                    0 <= i < width && 0 <= j < y ==> #[trigger] rows@[j]@[i] == pixel_at(
                        buf@,
                        raw_offset(w, i, j),
                    ),
            decreases height - y,
        {
            let mut row: Vec<Rgb> = Vec::new();
            let mut x: u32 = 0;
            while x < width
                invariant
                    x <= width,
                    y < height,
                    needed == 3 * w * h,
                    needed <= buf@.len(),
                    w == width,
                    h == height,
                    k == 3 * (y * w + x),
                    row@.len() == x,
                    forall|i: int| 0 <= i < x ==> #[trigger] row@[i] == pixel_at(buf@, raw_offset(w, i, y as int)),
                decreases width - x,
            {
                proof {
                    lemma_row_major(w, h, x as int, y as int);
                }
                row.push(rgb_from_bytes(&buf, k));
                k = k + 3;
                x = x + 1;
            }
            proof {
                if width > 0 {
                    lemma_row_major(w, h, 0, y as int);
                } else {
                    assert(y * w + x == (y + 1) * w) by (nonlinear_arith)
                        requires
                            w == 0,
                            x == 0,
                    ;
                }
            }
            rows.push(row);
            y = y + 1;
        }
        let img = RgbImage { width, height, rows };
        Some(img)
    }

    /// The interleaved, row-major RGB bytes of the image.
    pub fn to_raw(&self) -> (buf: Vec<u8>)
        ensures
            buf@.len() == 3 * self.width() * self.height(),
            forall|x: int, y: int|
                0 <= x < self.width() && 0 <= y < self.height() ==> pixel_at(
                    buf@,
                    raw_offset(self.width() as int, x, y),
                ) == #[trigger] self.pixel(x, y),
            forall|k: int| 0 <= k < buf@.len() ==> self.holds_channel(#[trigger] buf@[k]),
    {
        proof {
            use_type_invariant(self);
        }
        let ghost w = self.width as int;
        let ghost h = self.height as int;
        let mut buf: Vec<u8> = Vec::new();
        let mut y: u32 = 0;
        while y < self.height
            invariant
                y <= h,
                w == self.width,
                h == self.height,
                self.rows@.len() == h,
                forall|j: int| 0 <= j < h ==> #[trigger] self.rows@[j]@.len() == w,
                buf@.len() == 3 * (y * w),
                forall|k: int| 0 <= k < buf@.len() ==> self.holds_channel(#[trigger] buf@[k]),
                forall|i: int, j: int|
                    0 <= i < w && 0 <= j < y ==> pixel_at(buf@, raw_offset(w, i, j))
                        == #[trigger] self.pixel(i, j),
            decreases h - y,
        {
            let row = &self.rows[y as usize];
            assert(row@ == self.rows@[y as int]@);
            let mut x: u32 = 0;
            while x < self.width
                invariant
                    x <= w,
                    y < h,
                    w == self.width,
                    h == self.height,
                    row@ == self.rows@[y as int]@,
                    row@.len() == w,
                    buf@.len() == 3 * (y * w + x),
                    forall|k: int| 0 <= k < buf@.len() ==> self.holds_channel(#[trigger] buf@[k]),
                    forall|i: int, j: int|
                        0 <= i < w && 0 <= j < y ==> pixel_at(buf@, raw_offset(w, i, j))
                            == #[trigger] self.pixel(i, j),
                    forall|i: int| 0 <= i < x ==> pixel_at(buf@, raw_offset(w, i, y as int))
                        == #[trigger] self.pixel(i, y as int),
                decreases w - x,
            {
                proof {
                    lemma_row_major(w, h, x as int, y as int);
                }
                let p = row[x as usize];
                let ghost before = buf@;
                buf.push(p.0[0]);
                buf.push(p.0[1]);
                buf.push(p.0[2]);
                proof {
                    assert(channel(self.pixel(x as int, y as int), 0) == p.0[0]);
                    assert(channel(self.pixel(x as int, y as int), 1) == p.0[1]);
                    assert(channel(self.pixel(x as int, y as int), 2) == p.0[2]);
                    assert forall|k: int| 0 <= k < buf@.len() implies self.holds_channel(
                        #[trigger] buf@[k],
                    ) by {
                        if k < before.len() {
                            assert(buf@[k] == before[k]);
                        }
                    }
                    assert forall|i: int, j: int|
                        0 <= i < w && 0 <= j < y implies pixel_at(buf@, raw_offset(w, i, j))
                        == #[trigger] self.pixel(i, j) by {
                        lemma_row_major(w, y as int, i, j);
                        assert(pixel_at(buf@, raw_offset(w, i, j)) == pixel_at(before, raw_offset(w, i, j)));
                    }
                    assert forall|i: int| 0 <= i < x + 1 implies pixel_at(buf@, raw_offset(w, i, y as int))
                        == #[trigger] self.pixel(i, y as int) by {
                        if i < x {
                            assert(pixel_at(buf@, raw_offset(w, i, y as int)) == pixel_at(
                                before,
                                raw_offset(w, i, y as int),
                            ));
                        } else {
                            assert(pixel_at(buf@, raw_offset(w, i, y as int)).0 =~= p.0);
                        }
                    }
                }
                x = x + 1;
            }
            proof {
                if w > 0 {
                    lemma_row_major(w, h, 0, y as int);
                } else {
                    assert(y * w + x == (y + 1) * w) by (nonlinear_arith)
                        requires
                            w == 0,
                            x == 0,
                    ;
                }
            }
            y = y + 1;
        }
        proof {
            if h > 0 && w > 0 {
                lemma_row_major(w, h, w - 1, h - 1);
            } else {
                assert(3 * (y * w) == 3 * w * h) by (nonlinear_arith)
                    requires
                        y == h,
                ;
            }
        }
        buf
    }

    /// A copy of the `w` by `h` block whose top-left pixel is `(x, y)`.
    pub fn sub_image(&self, x: u32, y: u32, w: u32, h: u32) -> (sub: RgbImage)
        requires
            x + w <= self.width(),
            y + h <= self.height(),
        ensures
            sub.width() == w,
            sub.height() == h,
            forall|i: int, j: int|
                0 <= i < w && 0 <= j < h ==> #[trigger] sub.pixel(i, j) == self.pixel(x + i, y + j),
    {
        proof {
            use_type_invariant(self);
            lemma_smaller_fits(self.width as int, self.height as int, w as int, h as int);
        }
        let mut rows: Vec<Vec<Rgb>> = Vec::new();
        let mut j: u32 = 0;
        while j < h
            invariant
                j <= h,
                y + h <= self.height,
                x + w <= self.width,
                self.rows@.len() == self.height,
                forall|r: int| 0 <= r < self.height ==> #[trigger] self.rows@[r]@.len() == self.width,
                rows@.len() == j,
                forall|r: int| 0 <= r < j ==> #[trigger] rows@[r]@.len() == w,
                forall|i: int, r: int|
                    0 <= i < w && 0 <= r < j ==> #[trigger] rows@[r]@[i] == self.pixel(x + i, y + r),
            decreases h - j,
        {
            let src = &self.rows[(y + j) as usize];
            let mut row: Vec<Rgb> = Vec::new();
            let mut i: u32 = 0;
            while i < w
                invariant
                    i <= w,
                    x + w <= self.width,
                    src@.len() == self.width,
                    src@ == self.rows@[y + j]@,
                    row@.len() == i,
                    forall|c: int| 0 <= c < i ==> #[trigger] row@[c] == self.pixel(x + c, y + j),
                decreases w - i,
            {
                row.push(src[(x + i) as usize]);
                i = i + 1;
            }
            rows.push(row);
            j = j + 1;
        }
        RgbImage { width: w, height: h, rows }
    }
}

} // verus!
