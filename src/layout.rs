use crate::geometry::{covered, lemma_rows_tile, row_at, row_of, Region};
use vstd::arithmetic::div_mod::{
    lemma_div_is_ordered, lemma_div_multiples_vanish, lemma_fundamental_div_mod,
};
use vstd::arithmetic::mul::{lemma_mul_inequality, lemma_mul_upper_bound};
use vstd::prelude::*;

verus! {

/// The placement policy of a layout.
#[derive(Clone, Copy, Debug, PartialEq, Eq, Structural)]
pub enum LayoutKind {
    /// Main clients in a left column, the others in a right column.
    SideStack,
    /// Main clients in a top row, the others in a bottom row.
    BottomStack,
    /// The focused client wide, the others thin strips beside it.
    Paper,
    /// No placement at all: each client keeps the geometry it was given.
    Floating,
}

/// When and how a layout is applied.
#[derive(Clone, Copy, Debug, PartialEq, Eq, Structural)]
pub struct LayoutConf {
    /// Clients under this layout are not tiled.
    pub floating: bool,
    /// Gaps between clients are not drawn.
    pub gapless: bool,
    /// The layout is run again when only the focus changes.
    pub follow_focus: bool,
    /// Cycling past either end of the client list wraps round.
    pub allow_wrapping: bool,
}

impl LayoutConf {
    /// Tiled, with gaps, not rerun on focus changes, wrapping.
    pub fn standard() -> (c: LayoutConf)
        ensures
            c == (LayoutConf {
                floating: false,
                gapless: false,
                follow_focus: false,
                allow_wrapping: true,
            }),
    {
        LayoutConf { floating: false, gapless: false, follow_focus: false, allow_wrapping: true }
    }
}

/// Split ratios are percentages of the screen's width (or height); above 100 counts as 100.
pub open spec fn clamp_ratio(ratio: int) -> int {
    if ratio > 100 {
        100
    } else {
        ratio
    }
}

/// How many clients go to the main area.
pub open spec fn main_count(n: int, max_main: int) -> int {
    if max_main < n {
        max_main
    } else {
        n
    }
}

/// Width of the main column.
pub open spec fn main_width(r: Region, ratio: int) -> int {
    (r.w * clamp_ratio(ratio)) / 100
}

pub open spec fn side_stack_rect(r: Region, n: int, max_main: int, ratio: int, i: int) -> Region {
    let m = main_count(n, max_main);
    let mw = main_width(r, ratio);
    if m == 0 || m == n {
        row_of(r, r.x as int, r.w as int, n, i)
    } else if i < m {
        row_of(r, r.x as int, mw, m, i)
    } else {
        row_of(r, r.x + mw, r.w - mw, n - m, i - m)
    }
}

/// The side-stack placement of `n` clients on `r`.
pub open spec fn side_stack_spec(r: Region, n: nat, max_main: int, ratio: int) -> Seq<Region> {
    Seq::new(n, |i: int| side_stack_rect(r, n as int, max_main, ratio, i))
}

/// The bottom-stack placement: the side stack with the axes exchanged.
pub open spec fn bottom_stack_spec(r: Region, n: nat, max_main: int, ratio: int) -> Seq<Region> {
    Seq::new(n, |i: int| side_stack_rect(r.flipped(), n as int, max_main, ratio, i).flipped())
}

/// The rectangles lie in `r`, do not overlap, and leave no point of `r` uncovered.
pub open spec fn tiles(rects: Seq<Region>, r: Region) -> bool {
    &&& forall|i: int| 0 <= i < rects.len() ==> #[trigger] rects[i].within(r)
    &&& forall|i: int, j: int|
        0 <= i < rects.len() && 0 <= j < rects.len() && i != j ==> #[trigger] rects[i].disjoint(
            #[trigger] rects[j],
        )
    &&& forall|px: int, py: int| #[trigger] r.contains_point(px, py) ==> covered(rects, px, py)
}

proof fn lemma_main_width(r: Region, ratio: int)
    requires
        0 <= ratio,
    ensures
        0 <= main_width(r, ratio) <= r.w,
{
    let c = clamp_ratio(ratio);
    lemma_mul_inequality(c, 100, r.w as int);
    lemma_mul_inequality(0, c, r.w as int);
    assert(c * r.w == r.w * c) by (nonlinear_arith);
    assert(100 * r.w == r.w * 100) by (nonlinear_arith);
    lemma_div_is_ordered(r.w * c, r.w * 100, 100);
    lemma_div_is_ordered(0, r.w * c, 100);
    lemma_div_multiples_vanish(r.w as int, 100);
}

/// Side stack: for any number of clients, any main count and ratio, one rectangle per client
/// and together they tile the screen.
pub proof fn lemma_side_stack_tiles(r: Region, n: nat, max_main: u32, ratio: u32)
    requires
        r.wf(),
        n > 0,
    ensures
        side_stack_spec(r, n, max_main as int, ratio as int).len() == n,
        tiles(side_stack_spec(r, n, max_main as int, ratio as int), r),
{
    let s = side_stack_spec(r, n, max_main as int, ratio as int);
    let m = main_count(n as int, max_main as int);
    let mw = main_width(r, ratio as int);
    lemma_main_width(r, ratio as int);
    if m == 0 || m == n {
        lemma_rows_tile(r, r.x as int, r.w as int, n as int);
        assert forall|px: int, py: int| #[trigger] r.contains_point(px, py) implies covered(
            s,
            px,
            py,
        ) by {
            assert(crate::geometry::in_some_row(r, r.x as int, r.w as int, n as int, px, py));
            let i = choose|i: int|
                0 <= i < n && #[trigger] row_of(r, r.x as int, r.w as int, n as int, i).contains_point(
                    px,
                    py,
                );
            assert(s[i].contains_point(px, py));
        }
        assert forall|i: int, j: int| 0 <= i < s.len() && 0 <= j < s.len() && i != j implies #[trigger] s[i].disjoint(
            #[trigger] s[j],
        ) by {
            if i < j {
                assert(row_of(r, r.x as int, r.w as int, n as int, i).y + row_of(r, r.x as int, r.w as int, n as int, i).h
                    <= row_of(r, r.x as int, r.w as int, n as int, j).y);
            } else {
                assert(row_of(r, r.x as int, r.w as int, n as int, j).y + row_of(r, r.x as int, r.w as int, n as int, j).h
                    <= row_of(r, r.x as int, r.w as int, n as int, i).y);
            }
        }
        assert forall|i: int| 0 <= i < s.len() implies #[trigger] s[i].within(r) by {
            assert(row_of(r, r.x as int, r.w as int, n as int, i).within(r));
        }
    } else {
        let k = n - m;
        lemma_rows_tile(r, r.x as int, mw, m);
        lemma_rows_tile(r, r.x + mw, r.w - mw, k);
        assert forall|i: int| 0 <= i < s.len() implies #[trigger] s[i].within(r) by {
            if i < m {
                assert(row_of(r, r.x as int, mw, m, i).within(r));
            } else {
                assert(row_of(r, r.x + mw, r.w - mw, k, i - m).within(r));
            }
        }
        assert forall|i: int, j: int| 0 <= i < s.len() && 0 <= j < s.len() && i != j implies #[trigger] s[i].disjoint(
            #[trigger] s[j],
        ) by {
            if i < m && j < m {
                if i < j {
                    assert(row_of(r, r.x as int, mw, m, i).y + row_of(r, r.x as int, mw, m, i).h
                        <= row_of(r, r.x as int, mw, m, j).y);
                } else {
                    assert(row_of(r, r.x as int, mw, m, j).y + row_of(r, r.x as int, mw, m, j).h
                        <= row_of(r, r.x as int, mw, m, i).y);
                }
            } else if i >= m && j >= m {
                if i < j {
                    assert(row_of(r, r.x + mw, r.w - mw, k, i - m).y + row_of(r, r.x + mw, r.w - mw, k, i - m).h
                        <= row_of(r, r.x + mw, r.w - mw, k, j - m).y);
                } else {
                    assert(row_of(r, r.x + mw, r.w - mw, k, j - m).y + row_of(r, r.x + mw, r.w - mw, k, j - m).h
                        <= row_of(r, r.x + mw, r.w - mw, k, i - m).y);
                }
            } else if i < m {
                assert(row_of(r, r.x as int, mw, m, i).x == r.x);
                assert(row_of(r, r.x + mw, r.w - mw, k, j - m).x == r.x + mw);
                assert(row_of(r, r.x as int, mw, m, i).w == mw);
            } else {
                assert(row_of(r, r.x as int, mw, m, j).x == r.x);
                assert(row_of(r, r.x + mw, r.w - mw, k, i - m).x == r.x + mw);
                assert(row_of(r, r.x as int, mw, m, j).w == mw);
            }
        }
        assert forall|px: int, py: int| #[trigger] r.contains_point(px, py) implies covered(
            s,
            px,
            py,
        ) by {
            if px < r.x + mw {
                assert(crate::geometry::in_some_row(r, r.x as int, mw, m, px, py));
                let i = choose|i: int|
                    0 <= i < m && #[trigger] row_of(r, r.x as int, mw, m, i).contains_point(px, py);
                assert(s[i].contains_point(px, py));
            } else {
                assert(crate::geometry::in_some_row(r, r.x + mw, r.w - mw, k, px, py));
                let i = choose|i: int|
                    0 <= i < k && #[trigger] row_of(r, r.x + mw, r.w - mw, k, i).contains_point(
                        px,
                        py,
                    );
                assert(s[i + m].contains_point(px, py));
            }
        }
    }
}

/// Bottom stack: for any number of clients, any main count and ratio, one rectangle per client
/// and together they tile the screen.
pub proof fn lemma_bottom_stack_tiles(r: Region, n: nat, max_main: u32, ratio: u32)
    requires
        r.wf(),
        n > 0,
    ensures
        bottom_stack_spec(r, n, max_main as int, ratio as int).len() == n,
        tiles(bottom_stack_spec(r, n, max_main as int, ratio as int), r),
{
    let f = r.flipped();
    lemma_side_stack_tiles(f, n, max_main, ratio);
    let t = side_stack_spec(f, n, max_main as int, ratio as int);
    let s = bottom_stack_spec(r, n, max_main as int, ratio as int);
    assert forall|i: int| 0 <= i < s.len() implies #[trigger] s[i].within(r) by {
        assert(t[i].within(f));
    }
    assert forall|i: int, j: int| 0 <= i < s.len() && 0 <= j < s.len() && i != j implies #[trigger] s[i].disjoint(
        #[trigger] s[j],
    ) by {
        assert(t[i].disjoint(t[j]));
    }
    assert forall|px: int, py: int| #[trigger] r.contains_point(px, py) implies covered(
        s,
        px,
        py,
    ) by {
        assert(f.contains_point(py, px));
        let i = choose|i: int| 0 <= i < t.len() && #[trigger] t[i].contains_point(py, px);
        assert(s[i].contains_point(px, py));
    }
}

fn main_width_of(r: Region, ratio: u32) -> (mw: u32)
    ensures
        mw == main_width(r, ratio as int),
        mw <= r.w,
{
    proof {
        lemma_main_width(r, ratio as int);
    }
    let c: u64 = if ratio > 100 {
        100
    } else {
        ratio as u64
    };
    proof {
        lemma_mul_upper_bound(r.w as int, u32::MAX as int, c as int, 100);
    }
    (r.w as u64 * c / 100) as u32
}

/// Main clients stacked in a left column `ratio` percent wide, the rest in a right column; a
/// column with no clients leaves its width to the other.
pub fn side_stack(n: usize, max_main: u32, ratio: u32, r: Region) -> (out: Vec<Region>)
    requires
        r.wf(),
    ensures
        out@ == side_stack_spec(r, n as nat, max_main as int, ratio as int),
{
    let m: usize = if (max_main as u64) < (n as u64) {
        max_main as usize
    } else {
        n
    };
    let mw = main_width_of(r, ratio);
    let mut out: Vec<Region> = Vec::new();
    let mut i: usize = 0;
    while i < n
        invariant
            i <= n,
            m == main_count(n as int, max_main as int),
            mw == main_width(r, ratio as int),
            mw <= r.w,
            r.wf(),
            out@ =~= side_stack_spec(r, n as nat, max_main as int, ratio as int).take(i as int),
        decreases n - i,
    {
        let q = if m == 0 || m == n {
            row_at(r, r.x, r.w, n, i)
        } else if i < m {
            row_at(r, r.x, mw, m, i)
        } else {
            row_at(r, r.x + mw, r.w - mw, n - m, i - m)
        };
        out.push(q);
        i = i + 1;
    }
    out
}

/// Main clients side by side in a top row `ratio` percent high, the rest in a bottom row.
pub fn bottom_stack(n: usize, max_main: u32, ratio: u32, r: Region) -> (out: Vec<Region>)
    requires
        r.wf(),
    ensures
        out@ == bottom_stack_spec(r, n as nat, max_main as int, ratio as int),
{
    let side = side_stack(n, max_main, ratio, r.flip());
    let mut out: Vec<Region> = Vec::new();
    let mut i: usize = 0;
    while i < side.len()
        invariant
            i <= side@.len(),
            side@ == side_stack_spec(r.flipped(), n as nat, max_main as int, ratio as int),
            out@ =~= bottom_stack_spec(r, n as nat, max_main as int, ratio as int).take(i as int),
        decreases side@.len() - i,
    {
        out.push(side[i].flip());
        i = i + 1;
    }
    out
}

/// Width of the focused client under the paper layout: `ratio` percent of the screen, and no
/// less than half of it.
pub open spec fn paper_width(r: Region, ratio: int) -> int {
    let c = clamp_ratio(ratio);
    (r.w * (if c < 50 { 50 } else { c })) / 100
}

/// Width of each strip beside the focused client.
pub open spec fn paper_step(r: Region, n: int, ratio: int) -> int {
    (r.w - paper_width(r, ratio)) / (n - 1)
}

pub open spec fn paper_rect(r: Region, n: int, focused: int, ratio: int, i: int) -> Region {
    if n == 1 {
        r
    } else {
        let cw = paper_width(r, ratio);
        let step = paper_step(r, n, ratio);
        if i == focused {
            Region { x: (r.x + i * step) as u32, y: r.y, w: cw as u32, h: r.h }
        } else if i < focused {
            Region { x: (r.x + i * step) as u32, y: r.y, w: step as u32, h: r.h }
        } else {
            Region { x: (r.x + (i - 1) * step + cw) as u32, y: r.y, w: step as u32, h: r.h }
        }
    }
}

pub open spec fn paper_spec(r: Region, n: nat, focused: int, ratio: int) -> Seq<Region> {
    Seq::new(n, |i: int| paper_rect(r, n as int, focused, ratio, i))
}

proof fn lemma_paper_bounds(r: Region, n: int, ratio: int, i: int)
    requires
        n > 1,
        0 <= i < n,
        0 <= ratio,
    ensures
        0 <= paper_width(r, ratio) <= r.w,
        0 <= paper_step(r, n, ratio),
        paper_step(r, n, ratio) <= r.w - paper_width(r, ratio),
        0 <= i * paper_step(r, n, ratio) <= r.w - paper_width(r, ratio),
        i > 0 ==> (i - 1) * paper_step(r, n, ratio) + paper_step(r, n, ratio) == i * paper_step(
            r,
            n,
            ratio,
        ),
{
    let c0 = clamp_ratio(ratio);
    let c = if c0 < 50 { 50 } else { c0 };
    lemma_mul_inequality(c, 100, r.w as int);
    lemma_mul_inequality(50, c, r.w as int);
    assert(c * r.w == r.w * c) by (nonlinear_arith);
    assert(100 * r.w == r.w * 100) by (nonlinear_arith);
    assert(50 * r.w == r.w * 50) by (nonlinear_arith);
    lemma_div_is_ordered(r.w * c, r.w * 100, 100);
    lemma_div_is_ordered(r.w * 50, r.w * c, 100);
    lemma_div_multiples_vanish(r.w as int, 100);
    let cw = paper_width(r, ratio);
    let rest = r.w - cw;
    let step = paper_step(r, n, ratio);
    lemma_fundamental_div_mod(rest, n - 1);
    assert(0 <= step) by {
        lemma_div_is_ordered(0, rest, n - 1);
    }
    assert(step <= rest) by {
        lemma_mul_inequality(1, n - 1, step);
    }
    lemma_mul_inequality(i, n - 1, step);
    lemma_mul_inequality(0, i, step);
    assert((i - 1) * step + step == i * step) by (nonlinear_arith);
}

/// The focused client spans `ratio` percent (at least half) of the width; the others are strips
/// to its left and right, in client order.
pub fn paper(n: usize, focused: usize, ratio: u32, r: Region) -> (out: Vec<Region>)
    requires
        r.wf(),
        n == 0 || focused < n,
    ensures
        out@ == paper_spec(r, n as nat, focused as int, ratio as int),
{
    let mut out: Vec<Region> = Vec::new();
    if n == 0 {
        assert(out@ =~= paper_spec(r, n as nat, focused as int, ratio as int));
        return out;
    }
    if n == 1 {
        out.push(r);
        assert(out@ =~= paper_spec(r, n as nat, focused as int, ratio as int));
        return out;
    }
    let c: u64 = if ratio > 100 {
        100
    } else if ratio < 50 {
        50
    } else {
        ratio as u64
    };
    proof {
        lemma_mul_upper_bound(r.w as int, u32::MAX as int, c as int, 100);
        lemma_paper_bounds(r, n as int, ratio as int, 0);
    }
    let cw: u32 = (r.w as u64 * c / 100) as u32;
    let step: u32 = ((r.w - cw) as u64 / ((n - 1) as u64)) as u32;
    let mut i: usize = 0;
    while i < n
        invariant
            1 < n,
            focused < n,
            i <= n,
            r.wf(),
            cw == paper_width(r, ratio as int),
            step == paper_step(r, n as int, ratio as int),
            out@ =~= paper_spec(r, n as nat, focused as int, ratio as int).take(i as int),
        decreases n - i,
    {
        proof {
            lemma_paper_bounds(r, n as int, ratio as int, i as int);
        }
        let off: u32 = ((i as u128) * (step as u128)) as u32;
        let q = if i == focused {
            Region { x: r.x + off, y: r.y, w: cw, h: r.h }
        } else if i < focused {
            Region { x: r.x + off, y: r.y, w: step, h: r.h }
        } else {
            Region { x: r.x + (off - step) + cw, y: r.y, w: step, h: r.h }
        };
        out.push(q);
        i = i + 1;
    }
    out
}

/// The adjustable state of a layout: how many clients go to the main area, and the main
/// area's share of the screen in percent.
#[derive(Clone, Copy, Debug, PartialEq, Eq, Structural)]
pub struct LayoutParams {
    pub max_main: u32,
    pub ratio: u32,
}

/// A named placement policy with its flags and its starting parameters.
pub struct Layout {
    pub symbol: String,
    pub conf: LayoutConf,
    pub kind: LayoutKind,
    pub params: LayoutParams,
}

/// Where each of `n` clients goes under `kind`; a floating layout places none.
pub open spec fn arrange_spec(
    kind: LayoutKind,
    n: nat,
    focused: int,
    params: LayoutParams,
    r: Region,
) -> Seq<Region> {
    match kind {
        LayoutKind::SideStack => side_stack_spec(r, n, params.max_main as int, params.ratio as int),
        LayoutKind::BottomStack => bottom_stack_spec(
            r,
            n,
            params.max_main as int,
            params.ratio as int,
        ),
        LayoutKind::Paper => if n == 0 {
            Seq::empty()
        } else {
            paper_spec(r, n, focused, params.ratio as int)
        },
        LayoutKind::Floating => Seq::empty(),
    }
}

impl Layout {
    pub fn new(
        symbol: String,
        conf: LayoutConf,
        kind: LayoutKind,
        max_main: u32,
        ratio: u32,
    ) -> (l: Layout)
        ensures
            l.symbol@ == symbol@,
            l.conf == conf,
            l.kind == kind,
            l.params == (LayoutParams { max_main, ratio }),
    {
        Layout { symbol, conf, kind, params: LayoutParams { max_main, ratio } }
    }

    /// A layout that places nothing: every client floats.
    pub fn floating(symbol: String) -> (l: Layout)
        ensures
            l.symbol@ == symbol@,
            l.conf == (LayoutConf {
                floating: true,
                gapless: false,
                follow_focus: false,
                allow_wrapping: true,
            }),
            l.kind == LayoutKind::Floating,
            l.params == (LayoutParams { max_main: 0, ratio: 0 }),
    {
        Layout {
            symbol,
            conf: LayoutConf {
                floating: true,
                gapless: false,
                follow_focus: false,
                allow_wrapping: true,
            },
            kind: LayoutKind::Floating,
            params: LayoutParams { max_main: 0, ratio: 0 },
        }
    }
}

/// The rectangles for `n` tiled clients, in client order, of which the one at `focused` has the
/// focus.
pub fn arrange(kind: LayoutKind, n: usize, focused: usize, params: LayoutParams, r: Region) -> (out:
    Vec<Region>)
    requires
        r.wf(),
        n == 0 || focused < n,
    ensures
        out@ == arrange_spec(kind, n as nat, focused as int, params, r),
        kind != LayoutKind::Floating ==> out@.len() == n,
{
    match kind {
        LayoutKind::SideStack => side_stack(n, params.max_main, params.ratio, r),
        LayoutKind::BottomStack => bottom_stack(n, params.max_main, params.ratio, r),
        LayoutKind::Paper => if n == 0 {
            let out: Vec<Region> = Vec::new();
            assert(out@ =~= Seq::empty());
            out
        } else {
            paper(n, focused, params.ratio, r)
        },
        LayoutKind::Floating => {
            let out: Vec<Region> = Vec::new();
            assert(out@ =~= Seq::empty());
            out
        },
    }
}

} // verus!
