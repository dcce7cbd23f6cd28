use vstd::arithmetic::div_mod::{lemma_div_is_ordered, lemma_div_multiples_vanish};
use vstd::arithmetic::mul::{lemma_mul_inequality, lemma_mul_upper_bound};
use vstd::prelude::*;

verus! {

/// A rectangle on the screen: top left corner and size, in pixels.
#[derive(Clone, Copy, Debug, PartialEq, Eq, Structural)]
pub struct Region {
    pub x: u32,
    pub y: u32,
    pub w: u32,
    pub h: u32,
}

impl Region {
    /// The far edges of the rectangle still fit in a `u32`.
    pub open spec fn wf(self) -> bool {
        self.x + self.w <= u32::MAX && self.y + self.h <= u32::MAX
    }

    pub open spec fn contains_point(self, px: int, py: int) -> bool {
        self.x <= px < self.x + self.w && self.y <= py < self.y + self.h
    }

    /// Every point of `self` lies in `outer`.
    pub open spec fn within(self, outer: Region) -> bool {
        outer.x <= self.x && self.x + self.w <= outer.x + outer.w && outer.y <= self.y && self.y
            + self.h <= outer.y + outer.h
    }

    /// The two rectangles share no point.
    pub open spec fn disjoint(self, other: Region) -> bool {
        self.x + self.w <= other.x || other.x + other.w <= self.x || self.y + self.h <= other.y
            || other.y + other.h <= self.y
    }

    /// The same rectangle with the axes exchanged.
    pub open spec fn flipped(self) -> Region {
        Region { x: self.y, y: self.x, w: self.h, h: self.w }
    }

    pub fn new(x: u32, y: u32, w: u32, h: u32) -> (r: Region)
        ensures
            r == (Region { x, y, w, h }),
    {
        Region { x, y, w, h }
    }

    pub fn flip(&self) -> (r: Region)
        ensures
            r == self.flipped(),
    {
        Region { x: self.y, y: self.x, w: self.h, h: self.w }
    }
}

/// The offset at which part `i` of `k` equal parts of a length `len` starts.
pub open spec fn cut(len: int, k: int, i: int) -> int {
    (i * len) / k
}

pub proof fn lemma_cut_ordered(len: int, k: int, i: int, j: int)
    requires
        0 <= len,
        0 < k,
        0 <= i <= j <= k,
    ensures
        0 <= cut(len, k, i) <= cut(len, k, j) <= len,
        cut(len, k, 0) == 0,
        cut(len, k, k) == len,
{
    lemma_mul_inequality(i, j, len);
    lemma_mul_inequality(j, k, len);
    lemma_mul_inequality(0, i, len);
    lemma_div_is_ordered(i * len, j * len, k);
    lemma_div_is_ordered(j * len, k * len, k);
    lemma_div_is_ordered(0, i * len, k);
    lemma_div_multiples_vanish(len, k);
    assert(0 * len == 0);
    assert(k * len == len * k) by (nonlinear_arith);
}

/// Some part of the `k` parts of a length `len` holds the offset `v`.
pub proof fn lemma_cut_find(len: int, k: int, v: int, from: int) -> (i: int)
    requires
        0 <= v < len,
        0 < k,
        0 <= from < k,
        cut(len, k, from) <= v,
    ensures
        from <= i < k,
        cut(len, k, i) <= v < cut(len, k, i + 1),
    decreases k - from,
{
    lemma_cut_ordered(len, k, from + 1, k);
    if v < cut(len, k, from + 1) {
        from
    } else {
        lemma_cut_find(len, k, v, from + 1)
    }
}

/// Offset of part `i` of `k` equal parts of `len`.
pub fn cut_at(len: u32, k: usize, i: usize) -> (r: u32)
    requires
        0 < k,
        i <= k,
    ensures
        r == cut(len as int, k as int, i as int),
        r <= len,
{
    proof {
        lemma_cut_ordered(len as int, k as int, i as int, k as int);
        lemma_mul_inequality(i as int, k as int, len as int);
        lemma_mul_upper_bound(i as int, usize::MAX as int, len as int, u32::MAX as int);
        assert(usize::MAX as int * u32::MAX as int <= u128::MAX as int) by (nonlinear_arith);
    }
    let p: u128 = (i as u128) * (len as u128);
    (p / (k as u128)) as u32
}

/// Row `i` of a column of `k` equal rows; the column starts at `x`, is `w` wide and covers
/// `region` from top to bottom.
pub open spec fn row_of(region: Region, x: int, w: int, k: int, i: int) -> Region {
    Region {
        x: x as u32,
        y: (region.y + cut(region.h as int, k, i)) as u32,
        w: w as u32,
        h: (cut(region.h as int, k, i + 1) - cut(region.h as int, k, i)) as u32,
    }
}

pub fn row_at(region: Region, x: u32, w: u32, k: usize, i: usize) -> (r: Region)
    requires
        region.wf(),
        0 < k,
        i < k,
    ensures
        r == row_of(region, x as int, w as int, k as int, i as int),
{
    let top = cut_at(region.h, k, i);
    let bottom = cut_at(region.h, k, i + 1);
    proof {
        lemma_cut_ordered(region.h as int, k as int, i as int, i as int + 1);
    }
    Region { x, y: region.y + top, w, h: bottom - top }
}

/// Some row of the column holds the point.
pub open spec fn in_some_row(region: Region, x: int, w: int, k: int, px: int, py: int) -> bool {
    exists|i: int| 0 <= i < k && #[trigger] row_of(region, x, w, k, i).contains_point(px, py)
}

/// Some rectangle of `rects` holds the point.
pub open spec fn covered(rects: Seq<Region>, px: int, py: int) -> bool {
    exists|i: int| 0 <= i < rects.len() && #[trigger] rects[i].contains_point(px, py)
}

/// The rows of a column lie in the column, do not overlap, and cover it.
pub proof fn lemma_rows_tile(region: Region, x: int, w: int, k: int)
    requires
        region.wf(),
        0 < k,
        region.x <= x,
        0 <= w,
        x + w <= region.x + region.w,
    ensures
        forall|i: int| 0 <= i < k ==> #[trigger] row_of(region, x, w, k, i).within(region),
        forall|i: int| 0 <= i < k ==> #[trigger] row_of(region, x, w, k, i).x == x,
        forall|i: int| 0 <= i < k ==> #[trigger] row_of(region, x, w, k, i).w == w,
        forall|i: int, j: int|
            0 <= i < j < k ==> #[trigger] row_of(region, x, w, k, i).y + row_of(
                region,
                x,
                w,
                k,
                i,
            ).h <= #[trigger] row_of(region, x, w, k, j).y,
        forall|px: int, py: int|
            x <= px < x + w && region.y <= py < region.y + region.h ==> #[trigger] in_some_row(
                region,
                x,
                w,
                k,
                px,
                py,
            ),
{
    let h = region.h as int;
    assert forall|i: int| 0 <= i < k implies #[trigger] row_of(region, x, w, k, i).within(region)
        && row_of(region, x, w, k, i).x == x && row_of(region, x, w, k, i).w == w by {
        lemma_cut_ordered(h, k, i, i + 1);
        lemma_cut_ordered(h, k, i + 1, k);
    }
    assert forall|i: int| 0 <= i < k implies #[trigger] row_of(region, x, w, k, i).x == x by {
        lemma_cut_ordered(h, k, i, i + 1);
        lemma_cut_ordered(h, k, i + 1, k);
    }
    assert forall|i: int| 0 <= i < k implies #[trigger] row_of(region, x, w, k, i).w == w by {
        lemma_cut_ordered(h, k, i, i + 1);
        lemma_cut_ordered(h, k, i + 1, k);
    }
    assert forall|i: int, j: int| 0 <= i < j < k implies #[trigger] row_of(
        region,
        x,
        w,
        k,
        i,
    ).y + row_of(region, x, w, k, i).h <= #[trigger] row_of(region, x, w, k, j).y by {
        lemma_cut_ordered(h, k, i, i + 1);
        lemma_cut_ordered(h, k, i + 1, j);
        lemma_cut_ordered(h, k, j, k);
    }
    assert forall|px: int, py: int|
        x <= px < x + w && region.y <= py < region.y + region.h implies #[trigger] in_some_row(
            region,
            x,
            w,
            k,
            px,
            py,
        ) by {
        lemma_cut_ordered(h, k, 0, k);
        let i = lemma_cut_find(h, k, py - region.y, 0);
        lemma_cut_ordered(h, k, i, i + 1);
        lemma_cut_ordered(h, k, i + 1, k);
        assert(row_of(region, x, w, k, i).contains_point(px, py));
    }
}

} // verus!
