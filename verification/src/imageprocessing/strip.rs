//! Reordering of the pixels read along the screen border into the order of
//! the LEDs on the strip: dropping the positions that have no LED, moving the
//! strip's first LED to the front, and reversing the direction.

use crate::frame::Rgb;
use vstd::prelude::*;
use vstd::arithmetic::div_mod::{lemma_mod_sub_multiples_vanish, lemma_small_mod};

verus! {

/// Whether border position `i` lies in the run of `skip` positions that
/// starts at `skip_offset`. The position is compared as a `u32`, truncated.
pub open spec fn in_skipped_run(i: int, skip_offset: u32, skip: u32) -> bool {
    skip_offset <= (i as u32) && (i as u32) < skip_offset + skip
}

/// The pixels of `s`, in order, whose positions are not in the skipped run.
pub open spec fn unskipped(s: Seq<Rgb>, skip_offset: u32, skip: u32) -> Seq<Rgb>
    decreases s.len(),
{
    if s.len() == 0 {
        Seq::empty()
    } else {
        let before = unskipped(s.drop_last(), skip_offset, skip);
        if in_skipped_run(s.len() - 1, skip_offset, skip) {
            before
        } else {
            before.push(s.last())
        }
    }
}

/// `s` rotated left by `mid`: its first `mid` pixels move to the end.
pub open spec fn rotate_left(s: Seq<Rgb>, mid: int) -> Seq<Rgb> {
    s.subrange(mid, s.len() as int) + s.subrange(0, mid)
}

/// `s` reversed when `flip` holds, unchanged otherwise.
pub open spec fn oriented(s: Seq<Rgb>, flip: bool) -> Seq<Rgb> {
    if flip {
        s.reverse()
    } else {
        s
    }
}

/// The strip order of the border pixels `border`: skipped positions removed,
/// rotated left by `start`, reversed when `flip` holds.
pub open spec fn strip_order(
    border: Seq<Rgb>,
    start: u32,
    skip_offset: u32,
    skip: u32,
    flip: bool,
) -> Seq<Rgb> {
    oriented(rotate_left(unskipped(border, skip_offset, skip), start as int), flip)
}

/// With an empty skipped run every pixel stays.
pub proof fn lemma_empty_skip_keeps_all(s: Seq<Rgb>, skip_offset: u32)
    ensures
        unskipped(s, skip_offset, 0) == s,
    decreases s.len(),
{
    if s.len() > 0 {
        lemma_empty_skip_keeps_all(s.drop_last(), skip_offset);
        assert(s.drop_last().push(s.last()) =~= s);
    }
}

/// Ordering along the strip keeps every pixel that is not skipped: the
/// result has as many pixels, and each of them.
pub proof fn lemma_strip_order_keeps_pixels(
    border: Seq<Rgb>,
    start: u32,
    skip_offset: u32,
    skip: u32,
    flip: bool,
)
    requires
        start <= unskipped(border, skip_offset, skip).len(),
    ensures
        strip_order(border, start, skip_offset, skip, flip).to_multiset() == unskipped(
            border,
            skip_offset,
            skip,
        ).to_multiset(),
{
    let k = unskipped(border, skip_offset, skip);
    let a = k.subrange(0, start as int);
    let b = k.subrange(start as int, k.len() as int);
    assert(k =~= a + b);
    vstd::seq_lib::lemma_multiset_commutative(b, a);
    vstd::seq_lib::lemma_multiset_commutative(a, b);
    if flip {
        (b + a).lemma_reverse_to_multiset();
    }
}

proof fn lemma_unskipped_prefix(s: Seq<Rgb>, skip_offset: u32, skip: u32, n: int)
    requires
        skip_offset + skip <= s.len(),
        s.len() <= 0x1_0000_0000,
        0 <= n <= s.len(),
    ensures
        unskipped(s.subrange(0, n), skip_offset, skip) == if n <= skip_offset {
            s.subrange(0, n)
        } else if n <= skip_offset + skip {
            s.subrange(0, skip_offset as int)
        } else {
            s.subrange(0, skip_offset as int) + s.subrange(skip_offset + skip, n)
        },
    decreases n,
{
    if n > 0 {
        lemma_unskipped_prefix(s, skip_offset, skip, n - 1);
        let p = s.subrange(0, n);
        assert(p.drop_last() =~= s.subrange(0, n - 1));
        assert(((n - 1) as u32) == n - 1);
        if n <= skip_offset {
            assert(s.subrange(0, n - 1).push(s[n - 1]) =~= s.subrange(0, n));
        } else if n <= skip_offset + skip {
        } else if n == skip_offset + skip + 1 {
            assert(s.subrange(0, skip_offset as int).push(s[n - 1]) =~= s.subrange(
                0,
                skip_offset as int,
            ) + s.subrange(skip_offset + skip, n));
        } else {
            assert((s.subrange(0, skip_offset as int) + s.subrange(skip_offset + skip, n - 1)).push(
                s[n - 1],
            ) =~= s.subrange(0, skip_offset as int) + s.subrange(skip_offset + skip, n));
        }
    }
}

/// When the skipped run lies inside the border, dropping it leaves the
/// pixels before the run followed by the pixels after it.
pub proof fn lemma_unskipped_cuts_out_run(s: Seq<Rgb>, skip_offset: u32, skip: u32)
    requires
        skip_offset + skip <= s.len(),
        s.len() <= 0x1_0000_0000,
    ensures
        unskipped(s, skip_offset, skip) == s.subrange(0, skip_offset as int) + s.subrange(
            skip_offset + skip,
            s.len() as int,
        ),
{
    lemma_unskipped_prefix(s, skip_offset, skip, s.len() as int);
    assert(s.subrange(0, s.len() as int) =~= s);
    if s.len() <= skip_offset + skip {
        assert(s.subrange(skip_offset + skip, s.len() as int) =~= Seq::<Rgb>::empty());
        assert(s.subrange(0, skip_offset as int) + s.subrange(skip_offset + skip, s.len() as int)
            =~= s.subrange(0, skip_offset as int));
    }
}

/// Where each pixel ends up along the strip: with `n` pixels left after the
/// skipped run, LED `j` shows remaining pixel `(j + start) % n`, counting
/// LEDs from the far end of the strip when it is flipped.
pub proof fn lemma_strip_order_positions(
    border: Seq<Rgb>,
    start: u32,
    skip_offset: u32,
    skip: u32,
    flip: bool,
)
    requires
        start <= unskipped(border, skip_offset, skip).len(),
    ensures
        ({
            let u = unskipped(border, skip_offset, skip);
            let n = u.len() as int;
            let r = strip_order(border, start, skip_offset, skip, flip);
            &&& r.len() == n
            &&& forall|j: int|
                0 <= j < n ==> #[trigger] r[j] == u[((if flip {
                    n - 1 - j
                } else {
                    j
                }) + start) % n]
        }),
{
    let u = unskipped(border, skip_offset, skip);
    let n = u.len() as int;
    let rot = rotate_left(u, start as int);
    assert forall|i: int| 0 <= i < n implies #[trigger] rot[i] == u[(i + start) % n] by {
        if i < n - start {
            lemma_small_mod((i + start) as nat, n as nat);
        } else {
            lemma_mod_sub_multiples_vanish(i + start, n);
            lemma_small_mod((i + start - n) as nat, n as nat);
        }
    }
    let r = strip_order(border, start, skip_offset, skip, flip);
    assert forall|j: int| 0 <= j < n implies #[trigger] r[j] == u[((if flip {
        n - 1 - j
    } else {
        j
    }) + start) % n] by {
        if flip {
            assert(r[j] == rot[n - 1 - j]);
        } else {
            assert(r[j] == rot[j]);
        }
    }
}

/// Turning the strip round reverses it.
pub proof fn lemma_flip_reverses_strip(border: Seq<Rgb>, start: u32, skip_offset: u32, skip: u32)
    requires
        start <= unskipped(border, skip_offset, skip).len(),
    ensures
        strip_order(border, start, skip_offset, skip, true) == strip_order(
            border,
            start,
            skip_offset,
            skip,
            false,
        ).reverse(),
{
    lemma_strip_order_positions(border, start, skip_offset, skip, true);
    lemma_strip_order_positions(border, start, skip_offset, skip, false);
    let a = strip_order(border, start, skip_offset, skip, true);
    let b = strip_order(border, start, skip_offset, skip, false);
    let n = a.len() as int;
    assert forall|j: int| 0 <= j < n implies #[trigger] a[j] == b.reverse()[j] by {
        assert(b.reverse()[j] == b[n - 1 - j]);
    }
    assert(a =~= b.reverse());
}

/// Drops the pixels at the positions of the skipped run.
pub fn drop_skipped(border: &Vec<Rgb>, skip_offset: u32, skip: u32) -> (kept: Vec<Rgb>)
    requires
        border.len() == 0 || skip_offset + skip <= u32::MAX,
    ensures
        kept@ == unskipped(border@, skip_offset, skip),
{
    let mut kept: Vec<Rgb> = Vec::new();
    let mut i: usize = 0;
    while i < border.len()
        invariant
            i <= border.len(),
            border.len() == 0 || skip_offset + skip <= u32::MAX,
            kept@ == unskipped(border@.subrange(0, i as int), skip_offset, skip),
        decreases border.len() - i,
    {
        let pos = i as u32;
        let end = skip_offset + skip;
        assert(border@.subrange(0, i + 1).drop_last() =~= border@.subrange(0, i as int));
        if !(skip_offset <= pos && pos < end) {
            kept.push(border[i]);
        }
        i = i + 1;
    }
    assert(border@.subrange(0, border.len() as int) =~= border@);
    kept
}

/// Moves the first `mid` pixels to the end.
pub fn rotated_left(v: &Vec<Rgb>, mid: usize) -> (r: Vec<Rgb>)
    requires
        mid <= v.len(),
    ensures
        r@ == rotate_left(v@, mid as int),
{
    let mut r: Vec<Rgb> = Vec::new();
    let mut i: usize = mid;
    while i < v.len()
        invariant
            mid <= i <= v.len(),
            r@ == v@.subrange(mid as int, i as int),
        decreases v.len() - i,
    {
        r.push(v[i]);
        i = i + 1;
        assert(r@ =~= v@.subrange(mid as int, i as int));
    }
    let mut j: usize = 0;
    while j < mid
        invariant
            j <= mid <= v.len(),
            r@ == v@.subrange(mid as int, v.len() as int) + v@.subrange(0, j as int),
        decreases mid - j,
    {
        r.push(v[j]);
        j = j + 1;
        assert(r@ =~= v@.subrange(mid as int, v.len() as int) + v@.subrange(0, j as int));
    }
    r
}

/// The pixels in reverse order.
pub fn reversed(v: &Vec<Rgb>) -> (r: Vec<Rgb>)
    ensures
        r@ == v@.reverse(),
{
    let mut r: Vec<Rgb> = Vec::new();
    let mut i: usize = v.len();
    while i > 0
        invariant
            i <= v.len(),
            r@.len() == v.len() - i,
            forall|k: int| 0 <= k < r@.len() ==> r@[k] == v@[v.len() - 1 - k],
        decreases i,
    {
        i = i - 1;
        r.push(v[i]);
    }
    assert(r@ =~= v@.reverse());
    r
}

/// Puts border pixels into strip order: drops the skipped run, rotates left
/// by `start`, and reverses when `flip` holds.
pub fn order_strip(border: &Vec<Rgb>, start: u32, skip_offset: u32, skip: u32, flip: bool) -> (r:
    Vec<Rgb>)
    requires
        border.len() == 0 || skip_offset + skip <= u32::MAX,
        start <= unskipped(border@, skip_offset, skip).len(),
    ensures
        r@ == strip_order(border@, start, skip_offset, skip, flip),
{
    let kept = drop_skipped(border, skip_offset, skip);
    let turned = rotated_left(&kept, start as usize);
    if flip {
        reversed(&turned)
    } else {
        turned
    }
}

} // verus!
