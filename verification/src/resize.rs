//! The resize / conservation engine.
//!
//! Resizing keeps a centered window of the old grid, classifies the
//! grains cut off by each edge into four buckets, piles those buckets
//! into bands along the matching edges of the new grid, and drops any
//! remainder into whatever empty cells are left, bottom row first.

use vstd::prelude::*;

use crate::domain::CategoryId;
use crate::grid::{
    any_cat, cat, emp, eq_cat, grid_cnt, grid_view, grid_wf, lemma_row_cnt_split,
    lemma_seq_cnt_by_all, lemma_seq_cnt_by_bounds, lemma_seq_cnt_by_push, lemma_seq_cnt_by_split,
    lemma_win_cnt_agree, lemma_win_cnt_bounds, lemma_win_cnt_col_split, lemma_win_cnt_false,
    lemma_win_cnt_mono, lemma_win_cnt_row_split, lemma_win_cnt_true, lemma_win_cnt_update,
    make_grid, matches_pred, occ, row_cnt, seq_cnt_by, set_cell, win_cnt, Cell,
};

verus! {

/// Width of the old grid, read from its first row.
pub open spec fn grid_w(g: &Vec<Vec<Cell>>) -> int {
    if g@.len() == 0 {
        0
    } else {
        g@[0]@.len() as int
    }
}

/// First kept source index of an axis resized from `old_len` to `new_len`.
pub open spec fn kw_src_start(old_len: int, new_len: int) -> int {
    if new_len < old_len {
        (old_len - new_len) / 2
    } else {
        0
    }
}

/// Length of the kept window of an axis: the smaller of the two sizes.
pub open spec fn kw_len(old_len: int, new_len: int) -> int {
    if new_len < old_len {
        new_len
    } else {
        old_len
    }
}

/// One past the last kept source index of an axis.
pub open spec fn kw_src_end(old_len: int, new_len: int) -> int {
    kw_src_start(old_len, new_len) + kw_len(old_len, new_len)
}

/// Destination offset of the kept window on an axis.
pub open spec fn kw_dest_off(old_len: int, new_len: int) -> int {
    if new_len > old_len {
        (new_len - old_len) / 2
    } else {
        0
    }
}

/// No grain of the `h` by `w` grid lies outside the window
/// `[y0, y1) x [x0, x1)`.
pub open spec fn all_in_window(
    g: Seq<Seq<Cell>>,
    h: int,
    w: int,
    y0: int,
    y1: int,
    x0: int,
    x1: int,
) -> bool {
    forall|y: int, x: int|
        0 <= y < h && 0 <= x < w && !(y0 <= y < y1 && x0 <= x < x1) ==> (#[trigger] g[y][x])
            is None
}

/// The kept window of one axis: source start, source end (exclusive)
/// and destination offset.  Shrinking keeps the centered sub-range of
/// the old axis; growing pastes the whole old axis at a centered
/// offset.
pub fn kept_window(old_len: usize, new_len: usize) -> (r: (usize, usize, usize))
    ensures
        r.0 == kw_src_start(old_len as int, new_len as int),
        r.1 == kw_src_end(old_len as int, new_len as int),
        r.2 == kw_dest_off(old_len as int, new_len as int),
        r.0 <= r.1 <= old_len,
        r.2 + (r.1 - r.0) <= new_len,
{
    if new_len < old_len {
        let src_start = (old_len - new_len) / 2;
        (src_start, src_start + new_len, 0)
    } else if new_len > old_len {
        let dest_offset = (new_len - old_len) / 2;
        (0, old_len, dest_offset)
    } else {
        (0, old_len, 0)
    }
}

/// Copies the kept window of the old grid into a fresh `new_h` by
/// `new_w` grid at the given destination offsets; every cell outside
/// the pasted window is empty.
pub fn copy_window(
    old_grid: &Vec<Vec<Cell>>,
    new_w: usize,
    new_h: usize,
    x0: usize,
    x1: usize,
    xd: usize,
    y0: usize,
    y1: usize,
    yd: usize,
) -> (g: Vec<Vec<Cell>>)
    requires
        grid_wf(grid_view(old_grid), old_grid@.len() as int, grid_w(old_grid)),
        x0 <= x1 <= grid_w(old_grid),
        y0 <= y1 <= old_grid@.len(),
        xd + (x1 - x0) <= new_w,
        yd + (y1 - y0) <= new_h,
    ensures
        grid_wf(grid_view(&g), new_h as int, new_w as int),
        forall|i: int, j: int|
            0 <= i < y1 - y0 && 0 <= j < x1 - x0 ==> #[trigger] grid_view(&g)[yd + i][xd + j]
                == grid_view(old_grid)[y0 + i][x0 + j],
        forall|y: int, x: int|
            0 <= y < new_h && 0 <= x < new_w && !(yd <= y < yd + (y1 - y0) && xd <= x < xd + (x1
                - x0)) ==> (#[trigger] grid_view(&g)[y][x]) is None,
{
    let ghost ov = grid_view(old_grid);
    let mut g = make_grid(new_h, new_w);
    let mut i: usize = 0;
    while i < y1 - y0
        invariant
            grid_wf(grid_view(&g), new_h as int, new_w as int),
            grid_wf(ov, old_grid@.len() as int, grid_w(old_grid)),
            ov == grid_view(old_grid),
            x0 <= x1 <= grid_w(old_grid),
            y0 <= y1 <= old_grid@.len(),
            xd + (x1 - x0) <= new_w,
            yd + (y1 - y0) <= new_h,
            i <= y1 - y0,
            forall|a: int, b: int|
                0 <= a < i && 0 <= b < x1 - x0 ==> #[trigger] grid_view(&g)[yd + a][xd + b]
                    == ov[y0 + a][x0 + b],
            forall|y: int, x: int|
                0 <= y < new_h && 0 <= x < new_w && !(yd <= y < yd + i && xd <= x < xd + (x1 - x0))
                    ==> (#[trigger] grid_view(&g)[y][x]) is None,
        decreases y1 - y0 - i,
    {
        let mut j: usize = 0;
        while j < x1 - x0
            invariant
                grid_wf(grid_view(&g), new_h as int, new_w as int),
                grid_wf(ov, old_grid@.len() as int, grid_w(old_grid)),
                ov == grid_view(old_grid),
                x0 <= x1 <= grid_w(old_grid),
                y0 <= y1 <= old_grid@.len(),
                xd + (x1 - x0) <= new_w,
                yd + (y1 - y0) <= new_h,
                i < y1 - y0,
                j <= x1 - x0,
                forall|a: int, b: int|
                    0 <= a < i && 0 <= b < x1 - x0 ==> #[trigger] grid_view(&g)[yd + a][xd + b]
                        == ov[y0 + a][x0 + b],
                forall|b: int|
                    0 <= b < j ==> #[trigger] grid_view(&g)[yd + i][xd + b] == ov[y0 + i][x0 + b],
                forall|y: int, x: int|
                    0 <= y < new_h && 0 <= x < new_w && !(yd <= y < yd + i && xd <= x < xd + (x1
                        - x0)) && !(y == yd + i && xd <= x < xd + j) ==> (
                    #[trigger] grid_view(&g)[y][x]) is None,
            decreases x1 - x0 - j,
        {
            proof {
                assert(ov[y0 + i] == old_grid@[y0 + i]@);
                assert(ov[y0 + i].len() == grid_w(old_grid));
                assert(grid_view(&g)[yd + i] == g@[yd + i]@);
                assert(grid_view(&g)[yd + i].len() == new_w);
            }
            let v = old_grid[y0 + i][x0 + j];
            set_cell(&mut g, yd + i, xd + j, v);
            j = j + 1;
        }
        i = i + 1;
    }
    g
}

/// The grains cut off by a resize, one ordered bucket per edge.
#[derive(Default)]
pub struct LostGrains {
    pub left: Vec<CategoryId>,
    pub right: Vec<CategoryId>,
    pub top: Vec<CategoryId>,
    pub bottom: Vec<CategoryId>,
}

pub open spec fn min_i(a: int, b: int) -> int {
    if a < b {
        a
    } else {
        b
    }
}

pub open spec fn max_i(a: int, b: int) -> int {
    if a > b {
        a
    } else {
        b
    }
}

pub open spec fn clamp_i(v: int, lo: int, hi: int) -> int {
    max_i(lo, min_i(v, hi))
}

/// The cell that a placement scan walking rows bottom to top and
/// columns `[xlo, xhi)` left to right within a row leaves in the
/// initially empty cell `(y, x)`: the `e`-th grain of the bucket,
/// where `e` is the number of empty cells the scan visits before
/// `(y, x)`, or still nothing once the bucket is exhausted.
pub open spec fn scan_fill_bottom_up(
    g0: Seq<Seq<Cell>>,
    grains: Seq<CategoryId>,
    yhi: int,
    xlo: int,
    xhi: int,
    y: int,
    x: int,
) -> Cell {
    let e = win_cnt(g0, emp(), y + 1, yhi, xlo, xhi) + row_cnt(g0[y], emp(), xlo, x);
    if e < grains.len() {
        Some(grains[e])
    } else {
        None
    }
}

/// As `scan_fill_bottom_up`, for a scan walking columns right to left
/// within a row.
pub open spec fn scan_fill_bottom_up_rtl(
    g0: Seq<Seq<Cell>>,
    grains: Seq<CategoryId>,
    yhi: int,
    xlo: int,
    xhi: int,
    y: int,
    x: int,
) -> Cell {
    let e = win_cnt(g0, emp(), y + 1, yhi, xlo, xhi) + row_cnt(g0[y], emp(), x + 1, xhi);
    if e < grains.len() {
        Some(grains[e])
    } else {
        None
    }
}

/// As `scan_fill_bottom_up`, for a scan walking rows `[ylo, ...)` top
/// to bottom and columns left to right within a row.
pub open spec fn scan_fill_top_down(
    g0: Seq<Seq<Cell>>,
    grains: Seq<CategoryId>,
    ylo: int,
    xlo: int,
    xhi: int,
    y: int,
    x: int,
) -> Cell {
    let e = win_cnt(g0, emp(), ylo, y, xlo, xhi) + row_cnt(g0[y], emp(), xlo, x);
    if e < grains.len() {
        Some(grains[e])
    } else {
        None
    }
}

/// Scanning one more cell of a row extends its count by whether the
/// predicate accepts that cell.
proof fn lemma_row_cnt_step(r: Seq<Cell>, f: spec_fn(Cell) -> bool, lo: int, x: int)
    requires
        lo <= x,
    ensures
        row_cnt(r, f, lo, x + 1) == row_cnt(r, f, lo, x) + (if f(r[x]) {
            1int
        } else {
            0int
        }),
{
    reveal_with_fuel(row_cnt, 2);
}

/// Scanning one more cell leftward extends a right-to-left count.
proof fn lemma_row_cnt_step_down(r: Seq<Cell>, f: spec_fn(Cell) -> bool, x: int, hi: int)
    requires
        x < hi,
    ensures
        row_cnt(r, f, x, hi) == row_cnt(r, f, x + 1, hi) + (if f(r[x]) {
            1int
        } else {
            0int
        }),
{
    lemma_row_cnt_split(r, f, x, x + 1, hi);
    reveal_with_fuel(row_cnt, 2);
}

/// Finishing a row extends a bottom-up window count by that row.
proof fn lemma_win_cnt_row_step(
    g: Seq<Seq<Cell>>,
    f: spec_fn(Cell) -> bool,
    y: int,
    yhi: int,
    xlo: int,
    xhi: int,
)
    requires
        y < yhi,
    ensures
        win_cnt(g, f, y, yhi, xlo, xhi) == win_cnt(g, f, y + 1, yhi, xlo, xhi) + row_cnt(
            g[y],
            f,
            xlo,
            xhi,
        ),
{
    lemma_win_cnt_row_split(g, f, y, y + 1, yhi, xlo, xhi);
    reveal_with_fuel(win_cnt, 2);
}

/// The categories of the occupied cells of columns `[xlo, xhi)` of a
/// row, left to right.
pub open spec fn row_grains(r: Seq<Cell>, xlo: int, xhi: int) -> Seq<CategoryId>
    decreases xhi - xlo,
{
    if xlo >= xhi {
        Seq::empty()
    } else {
        row_grains(r, xlo, xhi - 1) + if r[xhi - 1] is Some {
            seq![r[xhi - 1]->0]
        } else {
            Seq::empty()
        }
    }
}

/// The categories of the occupied cells of columns `[xlo, xhi)` of
/// rows `[ylo, yhi)`, in scan order: row by row, left to right.
pub open spec fn win_grains(
    g: Seq<Seq<Cell>>,
    ylo: int,
    yhi: int,
    xlo: int,
    xhi: int,
) -> Seq<CategoryId>
    decreases yhi - ylo,
{
    if ylo >= yhi {
        Seq::empty()
    } else {
        win_grains(g, ylo, yhi - 1, xlo, xhi) + row_grains(g[yhi - 1], xlo, xhi)
    }
}

/// State of the exact-order classification scan: each bucket holds the
/// grains of its region seen so far, in scan order.
pub open spec fn lost_seq_inv(
    ov: Seq<Seq<Cell>>,
    lf: Seq<CategoryId>,
    rt: Seq<CategoryId>,
    tp: Seq<CategoryId>,
    bt: Seq<CategoryId>,
    w: int,
    x0: int,
    x1: int,
    y0: int,
    y1: int,
    y: int,
    x: int,
) -> bool {
    &&& lf == win_grains(ov, 0, y, 0, x0) + row_grains(ov[y], 0, min_i(x, x0))
    &&& rt == win_grains(ov, 0, y, x1, w) + row_grains(ov[y], x1, max_i(x, x1))
    &&& tp == win_grains(ov, 0, min_i(y, y0), x0, x1) + (if y < y0 {
        row_grains(ov[y], x0, clamp_i(x, x0, x1))
    } else {
        Seq::empty()
    })
    &&& bt == win_grains(ov, y1, max_i(y, y1), x0, x1) + (if y >= y1 {
        row_grains(ov[y], x0, clamp_i(x, x0, x1))
    } else {
        Seq::empty()
    })
}

/// One scan step of the exact-order invariant.
proof fn lemma_lost_seq_step(
    ov: Seq<Seq<Cell>>,
    lf: Seq<CategoryId>,
    rt: Seq<CategoryId>,
    tp: Seq<CategoryId>,
    bt: Seq<CategoryId>,
    lf2: Seq<CategoryId>,
    rt2: Seq<CategoryId>,
    tp2: Seq<CategoryId>,
    bt2: Seq<CategoryId>,
    w: int,
    x0: int,
    x1: int,
    y0: int,
    y1: int,
    y: int,
    x: int,
)
    requires
        0 <= x0 <= x1 <= w,
        0 <= y0 <= y1,
        0 <= y,
        0 <= x < w,
        lost_seq_inv(ov, lf, rt, tp, bt, w, x0, x1, y0, y1, y, x),
        ({
            let in_win = x0 <= x < x1 && y0 <= y < y1;
            let c = ov[y][x];
            if in_win || c is None {
                lf2 == lf && rt2 == rt && tp2 == tp && bt2 == bt
            } else if x < x0 {
                lf2 == lf.push(c->0) && rt2 == rt && tp2 == tp && bt2 == bt
            } else if x >= x1 {
                rt2 == rt.push(c->0) && lf2 == lf && tp2 == tp && bt2 == bt
            } else if y < y0 {
                tp2 == tp.push(c->0) && lf2 == lf && rt2 == rt && bt2 == bt
            } else {
                bt2 == bt.push(c->0) && lf2 == lf && rt2 == rt && tp2 == tp
            }
        }),
    ensures
        lost_seq_inv(ov, lf2, rt2, tp2, bt2, w, x0, x1, y0, y1, y, x + 1),
{
    reveal_with_fuel(row_grains, 3);
    let in_win = x0 <= x < x1 && y0 <= y < y1;
    let c = ov[y][x];
    if !in_win && c is Some {
        let g = c->0;
        if x < x0 {
            assert(row_grains(ov[y], 0, x + 1) =~= row_grains(ov[y], 0, x) + seq![g]);
            assert(lf.push(g) =~= win_grains(ov, 0, y, 0, x0) + row_grains(ov[y], 0, x + 1));
        } else if x >= x1 {
            assert(row_grains(ov[y], x1, x + 1) =~= row_grains(ov[y], x1, max_i(x, x1)) + seq![g]);
            assert(rt.push(g) =~= win_grains(ov, 0, y, x1, w) + row_grains(ov[y], x1, x + 1));
        } else if y < y0 {
            assert(row_grains(ov[y], x0, x + 1) =~= row_grains(ov[y], x0, clamp_i(x, x0, x1))
                + seq![g]);
            assert(tp.push(g) =~= win_grains(ov, 0, min_i(y, y0), x0, x1) + row_grains(
                ov[y],
                x0,
                x + 1,
            ));
        } else {
            assert(row_grains(ov[y], x0, x + 1) =~= row_grains(ov[y], x0, clamp_i(x, x0, x1))
                + seq![g]);
            assert(bt.push(g) =~= win_grains(ov, y1, max_i(y, y1), x0, x1) + row_grains(
                ov[y],
                x0,
                x + 1,
            ));
        }
    }
}

/// Finishing a row under the exact-order invariant.
proof fn lemma_lost_seq_row(
    ov: Seq<Seq<Cell>>,
    lf: Seq<CategoryId>,
    rt: Seq<CategoryId>,
    tp: Seq<CategoryId>,
    bt: Seq<CategoryId>,
    w: int,
    x0: int,
    x1: int,
    y0: int,
    y1: int,
    y: int,
)
    requires
        0 <= x0 <= x1 <= w,
        0 <= y0 <= y1,
        0 <= y,
        lost_seq_inv(ov, lf, rt, tp, bt, w, x0, x1, y0, y1, y, w),
    ensures
        lost_seq_inv(ov, lf, rt, tp, bt, w, x0, x1, y0, y1, y + 1, 0),
{
    reveal_with_fuel(row_grains, 3);
    reveal_with_fuel(win_grains, 3);
    assert(min_i(w, x0) == x0);
    assert(max_i(w, x1) == w);
    assert(win_grains(ov, 0, y + 1, 0, x0) == win_grains(ov, 0, y, 0, x0) + row_grains(
        ov[y],
        0,
        x0,
    ));
    assert(win_grains(ov, 0, y + 1, x1, w) == win_grains(ov, 0, y, x1, w) + row_grains(
        ov[y],
        x1,
        w,
    ));
    assert(lf =~= win_grains(ov, 0, y + 1, 0, x0) + row_grains(ov[y + 1], 0, 0));
    assert(rt =~= win_grains(ov, 0, y + 1, x1, w) + row_grains(ov[y + 1], x1, x1));
    if y < y0 {
        assert(clamp_i(w, x0, x1) == x1);
        assert(win_grains(ov, 0, min_i(y + 1, y0), x0, x1) == win_grains(ov, 0, min_i(y, y0), x0, x1)
            + row_grains(ov[y], x0, x1));
    }
    if y + 1 < y0 {
        assert(tp =~= win_grains(ov, 0, min_i(y + 1, y0), x0, x1) + row_grains(ov[y + 1], x0, x0));
    } else {
        assert(tp =~= win_grains(ov, 0, min_i(y + 1, y0), x0, x1) + Seq::<CategoryId>::empty());
    }
    if y >= y1 {
        assert(clamp_i(w, x0, x1) == x1);
        assert(win_grains(ov, y1, max_i(y + 1, y1), x0, x1) == win_grains(
            ov,
            y1,
            max_i(y, y1),
            x0,
            x1,
        ) + row_grains(ov[y], x0, x1));
        assert(bt =~= win_grains(ov, y1, max_i(y + 1, y1), x0, x1) + row_grains(ov[y + 1], x0, x0));
    } else if y + 1 >= y1 {
        assert(max_i(y + 1, y1) == y1);
        assert(bt =~= win_grains(ov, y1, max_i(y + 1, y1), x0, x1) + row_grains(ov[y + 1], x0, x0));
    } else {
        assert(bt =~= win_grains(ov, y1, max_i(y + 1, y1), x0, x1) + Seq::<CategoryId>::empty());
    }
}

/// State of the classification scan after processing every cell before
/// row `y` and, in row `y`, every cell before column `x`: each bucket
/// holds exactly the grains of its region seen so far, counted through
/// the matching pair of cell predicate `f` and grain predicate `p`.
pub open spec fn lost_inv(
    ov: Seq<Seq<Cell>>,
    lf: Seq<CategoryId>,
    rt: Seq<CategoryId>,
    tp: Seq<CategoryId>,
    bt: Seq<CategoryId>,
    f: spec_fn(Cell) -> bool,
    p: spec_fn(CategoryId) -> bool,
    w: int,
    x0: int,
    x1: int,
    y0: int,
    y1: int,
    y: int,
    x: int,
) -> bool {
    &&& seq_cnt_by(lf, p, 0, lf.len() as int) == win_cnt(ov, f, 0, y, 0, x0) + row_cnt(
        ov[y],
        f,
        0,
        min_i(x, x0),
    )
    &&& seq_cnt_by(rt, p, 0, rt.len() as int) == win_cnt(ov, f, 0, y, x1, w) + row_cnt(
        ov[y],
        f,
        x1,
        max_i(x, x1),
    )
    &&& seq_cnt_by(tp, p, 0, tp.len() as int) == win_cnt(ov, f, 0, min_i(y, y0), x0, x1) + (if y
        < y0 {
        row_cnt(ov[y], f, x0, clamp_i(x, x0, x1))
    } else {
        0int
    })
    &&& seq_cnt_by(bt, p, 0, bt.len() as int) == win_cnt(ov, f, y1, max_i(y, y1), x0, x1) + (if y
        >= y1 {
        row_cnt(ov[y], f, x0, clamp_i(x, x0, x1))
    } else {
        0int
    })
}

/// One scan step: after classifying cell `(y, x)` the invariant moves
/// to `(y, x + 1)`.
proof fn lemma_lost_step(
    ov: Seq<Seq<Cell>>,
    lf: Seq<CategoryId>,
    rt: Seq<CategoryId>,
    tp: Seq<CategoryId>,
    bt: Seq<CategoryId>,
    lf2: Seq<CategoryId>,
    rt2: Seq<CategoryId>,
    tp2: Seq<CategoryId>,
    bt2: Seq<CategoryId>,
    f: spec_fn(Cell) -> bool,
    p: spec_fn(CategoryId) -> bool,
    w: int,
    x0: int,
    x1: int,
    y0: int,
    y1: int,
    y: int,
    x: int,
)
    requires
        0 <= x0 <= x1 <= w,
        0 <= y0 <= y1,
        0 <= y,
        0 <= x < w,
        matches_pred(f, p),
        lost_inv(ov, lf, rt, tp, bt, f, p, w, x0, x1, y0, y1, y, x),
        ({
            let in_win = x0 <= x < x1 && y0 <= y < y1;
            let c = ov[y][x];
            if in_win || c is None {
                lf2 == lf && rt2 == rt && tp2 == tp && bt2 == bt
            } else if x < x0 {
                lf2 == lf.push(c->0) && rt2 == rt && tp2 == tp && bt2 == bt
            } else if x >= x1 {
                rt2 == rt.push(c->0) && lf2 == lf && tp2 == tp && bt2 == bt
            } else if y < y0 {
                tp2 == tp.push(c->0) && lf2 == lf && rt2 == rt && bt2 == bt
            } else {
                bt2 == bt.push(c->0) && lf2 == lf && rt2 == rt && tp2 == tp
            }
        }),
    ensures
        lost_inv(ov, lf2, rt2, tp2, bt2, f, p, w, x0, x1, y0, y1, y, x + 1),
{
    reveal_with_fuel(row_cnt, 3);
    reveal_with_fuel(seq_cnt_by, 3);
    let in_win = x0 <= x < x1 && y0 <= y < y1;
    let c = ov[y][x];
    if in_win || c is None {
        assert(!f(None));
    } else {
        let g = c->0;
        assert(f(c) == p(g));
        if x < x0 {
            lemma_seq_cnt_by_push(lf, g, p);
        } else if x >= x1 {
            lemma_seq_cnt_by_push(rt, g, p);
        } else if y < y0 {
            lemma_seq_cnt_by_push(tp, g, p);
        } else {
            lemma_seq_cnt_by_push(bt, g, p);
        }
    }
}

/// Finishing row `y` moves the invariant to the start of row `y + 1`.
proof fn lemma_lost_row(
    ov: Seq<Seq<Cell>>,
    lf: Seq<CategoryId>,
    rt: Seq<CategoryId>,
    tp: Seq<CategoryId>,
    bt: Seq<CategoryId>,
    f: spec_fn(Cell) -> bool,
    p: spec_fn(CategoryId) -> bool,
    w: int,
    x0: int,
    x1: int,
    y0: int,
    y1: int,
    y: int,
)
    requires
        0 <= x0 <= x1 <= w,
        0 <= y0 <= y1,
        0 <= y,
        lost_inv(ov, lf, rt, tp, bt, f, p, w, x0, x1, y0, y1, y, w),
    ensures
        lost_inv(ov, lf, rt, tp, bt, f, p, w, x0, x1, y0, y1, y + 1, 0),
{
    reveal_with_fuel(row_cnt, 3);
    reveal_with_fuel(win_cnt, 3);
    assert(min_i(w, x0) == x0);
    assert(max_i(w, x1) == w);
    assert(win_cnt(ov, f, 0, y + 1, 0, x0) == win_cnt(ov, f, 0, y, 0, x0) + row_cnt(
        ov[y],
        f,
        0,
        x0,
    ));
    assert(win_cnt(ov, f, 0, y + 1, x1, w) == win_cnt(ov, f, 0, y, x1, w) + row_cnt(
        ov[y],
        f,
        x1,
        w,
    ));
    if y < y0 {
        assert(clamp_i(w, x0, x1) == x1);
        assert(win_cnt(ov, f, 0, min_i(y + 1, y0), x0, x1) == win_cnt(ov, f, 0, min_i(y, y0), x0, x1)
            + row_cnt(ov[y], f, x0, x1));
    }
    if y >= y1 {
        assert(clamp_i(w, x0, x1) == x1);
        assert(win_cnt(ov, f, y1, max_i(y + 1, y1), x0, x1) == win_cnt(
            ov,
            f,
            y1,
            max_i(y, y1),
            x0,
            x1,
        ) + row_cnt(ov[y], f, x0, x1));
    }
}

/// Walks the old grid in scan order and collects every grain outside
/// the kept window into the bucket of the edge it was cut from.  A
/// grain cut on both axes counts for its left or right edge, never for
/// the top or bottom one.
pub fn classify_lost_grains(
    old_grid: &Vec<Vec<Cell>>,
    x_src_start: usize,
    x_src_end: usize,
    y_src_start: usize,
    y_src_end: usize,
) -> (lost: LostGrains)
    requires
        grid_wf(grid_view(old_grid), old_grid@.len() as int, grid_w(old_grid)),
        x_src_start <= x_src_end <= grid_w(old_grid),
        y_src_start <= y_src_end <= old_grid@.len(),
    ensures
        ({
            let ov = grid_view(old_grid);
            let h = old_grid@.len() as int;
            let w = grid_w(old_grid);
            let x0 = x_src_start as int;
            let x1 = x_src_end as int;
            let y0 = y_src_start as int;
            let y1 = y_src_end as int;
            &&& forall|k: u64|
                #[trigger] seq_cnt_by(lost.left@, eq_cat(k), 0, lost.left@.len() as int) == win_cnt(
                    ov,
                    cat(k),
                    0,
                    h,
                    0,
                    x0,
                )
            &&& forall|k: u64|
                #[trigger] seq_cnt_by(lost.right@, eq_cat(k), 0, lost.right@.len() as int)
                    == win_cnt(ov, cat(k), 0, h, x1, w)
            &&& forall|k: u64|
                #[trigger] seq_cnt_by(lost.top@, eq_cat(k), 0, lost.top@.len() as int) == win_cnt(
                    ov,
                    cat(k),
                    0,
                    y0,
                    x0,
                    x1,
                )
            &&& forall|k: u64|
                #[trigger] seq_cnt_by(lost.bottom@, eq_cat(k), 0, lost.bottom@.len() as int)
                    == win_cnt(ov, cat(k), y1, h, x0, x1)
            &&& lost.left@.len() == win_cnt(ov, occ(), 0, h, 0, x0)
            &&& lost.right@.len() == win_cnt(ov, occ(), 0, h, x1, w)
            &&& lost.top@.len() == win_cnt(ov, occ(), 0, y0, x0, x1)
            &&& lost.bottom@.len() == win_cnt(ov, occ(), y1, h, x0, x1)
            &&& lost.left@ == win_grains(ov, 0, h, 0, x0)
            &&& lost.right@ == win_grains(ov, 0, h, x1, w)
            &&& lost.top@ == win_grains(ov, 0, y0, x0, x1)
            &&& lost.bottom@ == win_grains(ov, y1, h, x0, x1)
        }),
{
    let ghost ov = grid_view(old_grid);
    let h = old_grid.len();
    let w = if h == 0 {
        0
    } else {
        old_grid[0].len()
    };
    proof {
        assert(w as int == grid_w(old_grid));
    }
    let ghost x0 = x_src_start as int;
    let ghost x1 = x_src_end as int;
    let ghost y0 = y_src_start as int;
    let ghost y1 = y_src_end as int;

    let mut lost = LostGrains {
        left: Vec::new(),
        right: Vec::new(),
        top: Vec::new(),
        bottom: Vec::new(),
    };

    proof {
        reveal_with_fuel(row_cnt, 2);
        reveal_with_fuel(win_cnt, 2);
        reveal_with_fuel(seq_cnt_by, 2);
    }

    let mut y: usize = 0;
    while y < h
        invariant
            grid_wf(ov, h as int, w as int),
            ov == grid_view(old_grid),
            h == old_grid@.len(),
            w as int == grid_w(old_grid),
            x0 == x_src_start as int,
            x1 == x_src_end as int,
            y0 == y_src_start as int,
            y1 == y_src_end as int,
            0 <= x0 <= x1 <= w,
            0 <= y0 <= y1 <= h,
            y <= h,
            forall|k: u64|
                lost_inv(
                    ov,
                    lost.left@,
                    lost.right@,
                    lost.top@,
                    lost.bottom@,
                    #[trigger] cat(k),
                    eq_cat(k),
                    w as int,
                    x0,
                    x1,
                    y0,
                    y1,
                    y as int,
                    0,
                ),
            lost_inv(
                ov,
                lost.left@,
                lost.right@,
                lost.top@,
                lost.bottom@,
                occ(),
                any_cat(),
                w as int,
                x0,
                x1,
                y0,
                y1,
                y as int,
                0,
            ),
            lost_seq_inv(
                ov,
                lost.left@,
                lost.right@,
                lost.top@,
                lost.bottom@,
                w as int,
                x0,
                x1,
                y0,
                y1,
                y as int,
                0,
            ),
        decreases h - y,
    {
        let mut x: usize = 0;
        while x < w
            invariant
                grid_wf(ov, h as int, w as int),
                ov == grid_view(old_grid),
                h == old_grid@.len(),
                w as int == grid_w(old_grid),
                x0 == x_src_start as int,
                x1 == x_src_end as int,
                y0 == y_src_start as int,
                y1 == y_src_end as int,
                0 <= x0 <= x1 <= w,
                0 <= y0 <= y1 <= h,
                y < h,
                x <= w,
                forall|k: u64|
                    lost_inv(
                        ov,
                        lost.left@,
                        lost.right@,
                        lost.top@,
                        lost.bottom@,
                        #[trigger] cat(k),
                        eq_cat(k),
                        w as int,
                        x0,
                        x1,
                        y0,
                        y1,
                        y as int,
                        x as int,
                    ),
                lost_inv(
                    ov,
                    lost.left@,
                    lost.right@,
                    lost.top@,
                    lost.bottom@,
                    occ(),
                    any_cat(),
                    w as int,
                    x0,
                    x1,
                    y0,
                    y1,
                    y as int,
                    x as int,
                ),
                lost_seq_inv(
                    ov,
                    lost.left@,
                    lost.right@,
                    lost.top@,
                    lost.bottom@,
                    w as int,
                    x0,
                    x1,
                    y0,
                    y1,
                    y as int,
                    x as int,
                ),
            decreases w - x,
        {
            let ghost lf = lost.left@;
            let ghost rt = lost.right@;
            let ghost tp = lost.top@;
            let ghost bt = lost.bottom@;
            proof {
                assert(ov[y as int] == old_grid@[y as int]@);
                assert(ov[y as int].len() == w);
            }
            let in_window = x >= x_src_start && x < x_src_end && y >= y_src_start && y
                < y_src_end;
            if !in_window {
                if let Some(c) = old_grid[y][x] {
                    if x < x_src_start {
                        lost.left.push(c);
                    } else if x >= x_src_end {
                        lost.right.push(c);
                    } else if y < y_src_start {
                        lost.top.push(c);
                    } else {
                        lost.bottom.push(c);
                    }
                }
            }
            proof {
                assert forall|k: u64|
                    lost_inv(
                        ov,
                        lost.left@,
                        lost.right@,
                        lost.top@,
                        lost.bottom@,
                        #[trigger] cat(k),
                        eq_cat(k),
                        w as int,
                        x0,
                        x1,
                        y0,
                        y1,
                        y as int,
                        x as int + 1,
                    ) by {
                    assert(lost_inv(
                        ov,
                        lf,
                        rt,
                        tp,
                        bt,
                        cat(k),
                        eq_cat(k),
                        w as int,
                        x0,
                        x1,
                        y0,
                        y1,
                        y as int,
                        x as int,
                    ));
                    assert(matches_pred(cat(k), eq_cat(k)));
                    lemma_lost_step(
                        ov,
                        lf,
                        rt,
                        tp,
                        bt,
                        lost.left@,
                        lost.right@,
                        lost.top@,
                        lost.bottom@,
                        cat(k),
                        eq_cat(k),
                        w as int,
                        x0,
                        x1,
                        y0,
                        y1,
                        y as int,
                        x as int,
                    );
                }
                assert(matches_pred(occ(), any_cat()));
                lemma_lost_step(
                    ov,
                    lf,
                    rt,
                    tp,
                    bt,
                    lost.left@,
                    lost.right@,
                    lost.top@,
                    lost.bottom@,
                    occ(),
                    any_cat(),
                    w as int,
                    x0,
                    x1,
                    y0,
                    y1,
                    y as int,
                    x as int,
                );
                lemma_lost_seq_step(
                    ov,
                    lf,
                    rt,
                    tp,
                    bt,
                    lost.left@,
                    lost.right@,
                    lost.top@,
                    lost.bottom@,
                    w as int,
                    x0,
                    x1,
                    y0,
                    y1,
                    y as int,
                    x as int,
                );
            }
            x = x + 1;
        }
        proof {
            assert forall|k: u64|
                lost_inv(
                    ov,
                    lost.left@,
                    lost.right@,
                    lost.top@,
                    lost.bottom@,
                    #[trigger] cat(k),
                    eq_cat(k),
                    w as int,
                    x0,
                    x1,
                    y0,
                    y1,
                    y as int + 1,
                    0,
                ) by {
                lemma_lost_row(
                    ov,
                    lost.left@,
                    lost.right@,
                    lost.top@,
                    lost.bottom@,
                    cat(k),
                    eq_cat(k),
                    w as int,
                    x0,
                    x1,
                    y0,
                    y1,
                    y as int,
                );
            }
            lemma_lost_row(
                ov,
                lost.left@,
                lost.right@,
                lost.top@,
                lost.bottom@,
                occ(),
                any_cat(),
                w as int,
                x0,
                x1,
                y0,
                y1,
                y as int,
            );
            lemma_lost_seq_row(
                ov,
                lost.left@,
                lost.right@,
                lost.top@,
                lost.bottom@,
                w as int,
                x0,
                x1,
                y0,
                y1,
                y as int,
            );
        }
        y = y + 1;
    }
    proof {
        reveal_with_fuel(row_cnt, 2);
        assert(min_i(h as int, y0 as int) == y0);
        assert(max_i(h as int, y1 as int) == h as int);
        lemma_seq_cnt_by_all(lost.left@, 0, lost.left@.len() as int);
        lemma_seq_cnt_by_all(lost.right@, 0, lost.right@.len() as int);
        lemma_seq_cnt_by_all(lost.top@, 0, lost.top@.len() as int);
        lemma_seq_cnt_by_all(lost.bottom@, 0, lost.bottom@.len() as int);
        reveal_with_fuel(row_grains, 2);
        assert(lost.left@ =~= win_grains(ov, 0, h as int, 0, x0));
        assert(lost.right@ =~= win_grains(ov, 0, h as int, x1, w as int));
        assert(lost.top@ =~= win_grains(ov, 0, y0, x0, x1));
        assert(lost.bottom@ =~= win_grains(ov, y1, h as int, x0, x1));
    }
    lost
}

/// A full grid count splits into the five regions around a window:
/// the full-height left and right strips, the top and bottom strips
/// between them, and the window itself.
pub proof fn lemma_grid_decompose(
    g: Seq<Seq<Cell>>,
    f: spec_fn(Cell) -> bool,
    h: int,
    w: int,
    y0: int,
    y1: int,
    x0: int,
    x1: int,
)
    requires
        0 <= y0 <= y1 <= h,
        0 <= x0 <= x1 <= w,
    ensures
        grid_cnt(g, f, h, w) == win_cnt(g, f, 0, h, 0, x0) + win_cnt(g, f, 0, h, x1, w) + win_cnt(
            g,
            f,
            0,
            y0,
            x0,
            x1,
        ) + win_cnt(g, f, y1, h, x0, x1) + win_cnt(g, f, y0, y1, x0, x1),
{
    lemma_win_cnt_col_split(g, f, 0, h, 0, x0, w);
    lemma_win_cnt_col_split(g, f, 0, h, x0, x1, w);
    lemma_win_cnt_row_split(g, f, 0, y0, h, x0, x1);
    lemma_win_cnt_row_split(g, f, y0, y1, h, x0, x1);
}

/// A grid holding a pasted copy of a window, and nothing else, has
/// exactly the window's count.
proof fn lemma_copy_counts(
    ov: Seq<Seq<Cell>>,
    cv: Seq<Seq<Cell>>,
    f: spec_fn(Cell) -> bool,
    nh: int,
    nw: int,
    x0: int,
    x1: int,
    xd: int,
    y0: int,
    y1: int,
    yd: int,
)
    requires
        !f(None),
        x0 <= x1,
        y0 <= y1,
        0 <= xd,
        0 <= yd,
        xd + (x1 - x0) <= nw,
        yd + (y1 - y0) <= nh,
        forall|i: int, j: int|
            0 <= i < y1 - y0 && 0 <= j < x1 - x0 ==> #[trigger] cv[yd + i][xd + j] == ov[y0 + i][x0
                + j],
        forall|y: int, x: int|
            0 <= y < nh && 0 <= x < nw && !(yd <= y < yd + (y1 - y0) && xd <= x < xd + (x1 - x0))
                ==> (#[trigger] cv[y][x]) is None,
    ensures
        grid_cnt(cv, f, nh, nw) == win_cnt(ov, f, y0, y1, x0, x1),
{
    let ye = yd + (y1 - y0);
    let xe = xd + (x1 - x0);
    lemma_grid_decompose(cv, f, nh, nw, yd, ye, xd, xe);
    lemma_win_cnt_false(cv, f, 0, nh, 0, xd);
    lemma_win_cnt_false(cv, f, 0, nh, xe, nw);
    lemma_win_cnt_false(cv, f, 0, yd, xd, xe);
    lemma_win_cnt_false(cv, f, ye, nh, xd, xe);
    assert forall|i: int, j: int|
        0 <= i < y1 - y0 && 0 <= j < x1 - x0 implies f(#[trigger] cv[yd + i][xd + j]) == f(
        ov[y0 + i][x0 + j],
    ) by {
        assert(cv[yd + i][xd + j] == ov[y0 + i][x0 + j]);
    }
    lemma_win_cnt_agree(cv, ov, f, yd, y0, y1 - y0, xd, x0, x1 - x0);
}

/// Appends the entries of `src` from index `from` on (nothing when
/// `from` is past the end) to `dst`.
fn append_tail(dst: &mut Vec<CategoryId>, src: &Vec<CategoryId>, from: usize)
    ensures
        ({
            let lo = min_i(from as int, src@.len() as int);
            &&& final(dst)@.len() == old(dst)@.len() + (src@.len() - lo)
            &&& forall|k: u64|
                #[trigger] seq_cnt_by(final(dst)@, eq_cat(k), 0, final(dst)@.len() as int)
                    == seq_cnt_by(old(dst)@, eq_cat(k), 0, old(dst)@.len() as int) + seq_cnt_by(
                    src@,
                    eq_cat(k),
                    lo,
                    src@.len() as int,
                )
        }),
{
    let ghost d0 = old(dst)@;
    let start = if from < src.len() {
        from
    } else {
        src.len()
    };
    let mut i: usize = start;
    while i < src.len()
        invariant
            start == min_i(from as int, src@.len() as int),
            start <= i <= src@.len(),
            dst@.len() == d0.len() + (i - start),
            forall|k: u64|
                #[trigger] seq_cnt_by(dst@, eq_cat(k), 0, dst@.len() as int) == seq_cnt_by(
                    d0,
                    eq_cat(k),
                    0,
                    d0.len() as int,
                ) + seq_cnt_by(src@, eq_cat(k), start as int, i as int),
        decreases src@.len() - i,
    {
        let ghost dprev = dst@;
        let c = src[i];
        dst.push(c);
        proof {
            assert forall|k: u64|
                #[trigger] seq_cnt_by(dst@, eq_cat(k), 0, dst@.len() as int) == seq_cnt_by(
                    d0,
                    eq_cat(k),
                    0,
                    d0.len() as int,
                ) + seq_cnt_by(src@, eq_cat(k), start as int, i as int + 1) by {
                lemma_seq_cnt_by_push(dprev, c, eq_cat(k));
                assert(seq_cnt_by(src@, eq_cat(k), start as int, i as int + 1) == seq_cnt_by(
                    src@,
                    eq_cat(k),
                    start as int,
                    i as int,
                ) + if eq_cat(k)(src@[i as int]) {
                    1int
                } else {
                    0int
                });
            }
        }
        i = i + 1;
    }
}

/// The count bookkeeping of every placement pass: the grids differ in
/// that placing grain number `placed` filled the empty cell `(y, x)`.
proof fn lemma_place_step(
    gprev: Seq<Seq<Cell>>,
    gnew: Seq<Seq<Cell>>,
    g0: Seq<Seq<Cell>>,
    h: int,
    w: int,
    y: int,
    x: int,
    grains: Seq<CategoryId>,
    placed: int,
)
    requires
        grid_wf(gprev, h, w),
        0 <= y < h,
        0 <= x < w,
        gprev[y][x] is None,
        0 <= placed < grains.len(),
        gnew == gprev.update(y, gprev[y].update(x, Some(grains[placed]))),
        forall|k: u64|
            grid_cnt(gprev, #[trigger] cat(k), h, w) == grid_cnt(g0, cat(k), h, w) + seq_cnt_by(
                grains,
                eq_cat(k),
                0,
                placed,
            ),
        grid_cnt(gprev, occ(), h, w) == grid_cnt(g0, occ(), h, w) + placed,
    ensures
        grid_wf(gnew, h, w),
        forall|k: u64|
            grid_cnt(gnew, #[trigger] cat(k), h, w) == grid_cnt(g0, cat(k), h, w) + seq_cnt_by(
                grains,
                eq_cat(k),
                0,
                placed + 1,
            ),
        grid_cnt(gnew, occ(), h, w) == grid_cnt(g0, occ(), h, w) + placed + 1,
        gnew[y][x] is Some,
        forall|i: int, j: int|
            0 <= i < h && 0 <= j < w && !(i == y && j == x) ==> #[trigger] gnew[i][j]
                == gprev[i][j],
{
    let c = grains[placed];
    assert forall|i: int, j: int|
        0 <= i < h && 0 <= j < w && !(i == y && j == x) implies #[trigger] gnew[i][j]
        == gprev[i][j] by {
        if i == y {
            assert(gnew[y] == gprev[y].update(x, Some(c)));
        } else {
            assert(gnew[i] == gprev[i]);
        }
    }
    assert(gnew[y][x] == Some(c));
    assert forall|k: u64|
        grid_cnt(gnew, #[trigger] cat(k), h, w) == grid_cnt(g0, cat(k), h, w) + seq_cnt_by(
            grains,
            eq_cat(k),
            0,
            placed + 1,
        ) by {
        lemma_win_cnt_update(gprev, gnew, cat(k), 0, h, 0, w, y, x);
        assert(!cat(k)(gprev[y][x]));
        assert(cat(k)(gnew[y][x]) == eq_cat(k)(c));
    }
    lemma_win_cnt_update(gprev, gnew, occ(), 0, h, 0, w, y, x);
    assert(!occ()(gprev[y][x]));
    assert(occ()(gnew[y][x]));
}

/// Fills empty cells of the left edge band, rows bottom to top and
/// columns left to right inside a row, with grains from the bucket,
/// until the bucket or the band is exhausted.  Returns how many grains
/// were placed; the contract pins which grain every band cell
/// receives.
pub fn place_left_band(grid: &mut Vec<Vec<Cell>>, grains: &Vec<CategoryId>, band_w_px: usize) -> (placed: usize)
    requires
        grid_wf(grid_view(old(grid)), old(grid)@.len() as int, grid_w(old(grid))),
        band_w_px <= grid_w(old(grid)),
    ensures
        ({
            let g0 = grid_view(old(grid));
            let g1 = grid_view(final(grid));
            let h = old(grid)@.len() as int;
            let w = grid_w(old(grid));
            let bw = band_w_px as int;
            &&& grid_wf(g1, h, w)
            &&& placed <= grains@.len()
            &&& placed as int == min_i(grains@.len() as int, win_cnt(g0, emp(), 0, h, 0, bw))
            &&& placed as int <= h * bw
            &&& forall|y: int, x: int|
                0 <= y < h && 0 <= x < w && g0[y][x] is Some ==> #[trigger] g1[y][x] == g0[y][x]
            &&& forall|y: int, x: int|
                0 <= y < h && bw <= x < w ==> #[trigger] g1[y][x] == g0[y][x]
            &&& forall|y: int, x: int|
                0 <= y < h && 0 <= x < bw && g0[y][x] is None ==> #[trigger] g1[y][x]
                    == scan_fill_bottom_up(g0, grains@, h, 0, bw, y, x)
            &&& (placed == 0 ==> g1 == g0)
            &&& forall|k: u64|
                grid_cnt(g1, #[trigger] cat(k), h, w) == grid_cnt(g0, cat(k), h, w) + seq_cnt_by(
                    grains@,
                    eq_cat(k),
                    0,
                    placed as int,
                )
            &&& grid_cnt(g1, occ(), h, w) == grid_cnt(g0, occ(), h, w) + placed
            &&& (grains@.len() > 0 && h > 0 && bw > 0 ==> g1[h - 1][0] is Some)
            &&& (placed < grains@.len() ==> forall|y: int, x: int|
                0 <= y < h && 0 <= x < bw ==> (#[trigger] g1[y][x]) is Some)
        }),
{
    let ghost g0 = grid_view(old(grid));
    let ghost w = grid_w(old(grid));
    let ghost n = grains@.len() as int;
    let ghost bw = band_w_px as int;
    let h = grid.len();
    let nn = grains.len();
    let mut placed: usize = 0;
    let mut yi: usize = h;
    while yi > 0
        invariant
            h == old(grid)@.len(),
            w == grid_w(old(grid)),
            g0 == grid_view(old(grid)),
            grid_wf(g0, h as int, w),
            band_w_px <= w,
            bw == band_w_px as int,
            n == grains@.len() as int,
            nn == grains@.len(),
            yi <= h,
            grid_wf(grid_view(grid), h as int, w),
            placed <= nn,
            placed as int == min_i(n, win_cnt(g0, emp(), yi as int, h as int, 0, bw)),
            forall|y: int, x: int|
                0 <= y < yi && 0 <= x < w ==> #[trigger] grid_view(grid)[y][x] == g0[y][x],
            forall|y: int, x: int|
                0 <= y < h && bw <= x < w ==> #[trigger] grid_view(grid)[y][x] == g0[y][x],
            forall|y: int, x: int|
                0 <= y < h && 0 <= x < w && g0[y][x] is Some ==> #[trigger] grid_view(grid)[y][x]
                    == g0[y][x],
            forall|y: int, x: int|
                yi <= y < h && 0 <= x < bw && g0[y][x] is None ==> #[trigger] grid_view(grid)[y][x]
                    == scan_fill_bottom_up(g0, grains@, h as int, 0, bw, y, x),
            placed < nn ==> forall|y: int, x: int|
                yi <= y < h && 0 <= x < bw ==> (#[trigger] grid_view(grid)[y][x]) is Some,
            placed == 0 ==> grid_view(grid) == g0,
            forall|k: u64|
                grid_cnt(grid_view(grid), #[trigger] cat(k), h as int, w) == grid_cnt(
                    g0,
                    cat(k),
                    h as int,
                    w,
                ) + seq_cnt_by(grains@, eq_cat(k), 0, placed as int),
            grid_cnt(grid_view(grid), occ(), h as int, w) == grid_cnt(g0, occ(), h as int, w)
                + placed,
        decreases yi,
    {
        let y = yi - 1;
        let ghost e_row = win_cnt(g0, emp(), yi as int, h as int, 0, bw);
        let mut x: usize = 0;
        while x < band_w_px
            invariant
                h == old(grid)@.len(),
                w == grid_w(old(grid)),
                g0 == grid_view(old(grid)),
                grid_wf(g0, h as int, w),
                band_w_px <= w,
                bw == band_w_px as int,
                n == grains@.len() as int,
                nn == grains@.len(),
                0 < yi <= h,
                y == yi - 1,
                x <= band_w_px,
                grid_wf(grid_view(grid), h as int, w),
                placed <= nn,
                e_row == win_cnt(g0, emp(), yi as int, h as int, 0, bw),
                placed as int == min_i(n, e_row + row_cnt(g0[y as int], emp(), 0, x as int)),
                forall|yy: int, xx: int|
                    0 <= yy < y && 0 <= xx < w ==> #[trigger] grid_view(grid)[yy][xx]
                        == g0[yy][xx],
                forall|xx: int|
                    x <= xx < w ==> #[trigger] grid_view(grid)[y as int][xx] == g0[y as int][xx],
                forall|yy: int, xx: int|
                    0 <= yy < h && bw <= xx < w ==> #[trigger] grid_view(grid)[yy][xx]
                        == g0[yy][xx],
                forall|yy: int, xx: int|
                    0 <= yy < h && 0 <= xx < w && g0[yy][xx] is Some ==> #[trigger] grid_view(
                        grid,
                    )[yy][xx] == g0[yy][xx],
                forall|yy: int, xx: int|
                    yi <= yy < h && 0 <= xx < bw && g0[yy][xx] is None ==> #[trigger] grid_view(
                        grid,
                    )[yy][xx] == scan_fill_bottom_up(g0, grains@, h as int, 0, bw, yy, xx),
                forall|xx: int|
                    0 <= xx < x && g0[y as int][xx] is None ==> #[trigger] grid_view(
                        grid,
                    )[y as int][xx] == scan_fill_bottom_up(
                        g0,
                        grains@,
                        h as int,
                        0,
                        bw,
                        y as int,
                        xx,
                    ),
                placed < nn ==> forall|yy: int, xx: int|
                    yi <= yy < h && 0 <= xx < bw ==> (#[trigger] grid_view(grid)[yy][xx]) is Some,
                placed < nn ==> forall|xx: int|
                    0 <= xx < x ==> (#[trigger] grid_view(grid)[y as int][xx]) is Some,
                placed == 0 ==> grid_view(grid) == g0,
                forall|k: u64|
                    grid_cnt(grid_view(grid), #[trigger] cat(k), h as int, w) == grid_cnt(
                        g0,
                        cat(k),
                        h as int,
                        w,
                    ) + seq_cnt_by(grains@, eq_cat(k), 0, placed as int),
                grid_cnt(grid_view(grid), occ(), h as int, w) == grid_cnt(g0, occ(), h as int, w)
                    + placed,
            decreases band_w_px - x,
        {
            let ghost e_here = e_row + row_cnt(g0[y as int], emp(), 0, x as int);
            proof {
                assert(grid_view(grid)[y as int] == grid@[y as int]@);
                assert(grid_view(grid)[y as int].len() == w);
                assert(grid_view(grid)[y as int][x as int] == g0[y as int][x as int]);
            }
            if grid[y][x].is_none() {
                if placed < nn {
                    let ghost gprev = grid_view(grid);
                    proof {
                        assert(placed as int == e_here);
                    }
                    let c = grains[placed];
                    set_cell(grid, y, x, Some(c));
                    proof {
                        lemma_place_step(
                            gprev,
                            grid_view(grid),
                            g0,
                            h as int,
                            w,
                            y as int,
                            x as int,
                            grains@,
                            placed as int,
                        );
                    }
                    placed = placed + 1;
                }
            }
            proof {
                lemma_row_cnt_step(g0[y as int], emp(), 0, x as int);
            }
            x = x + 1;
        }
        proof {
            lemma_win_cnt_row_step(g0, emp(), y as int, h as int, 0, bw);
        }
        yi = yi - 1;
    }
    proof {
        lemma_win_cnt_bounds(g0, emp(), 0, h as int, 0, bw);
        if grains@.len() > 0 && h > 0 && band_w_px > 0 {
            if g0[h - 1][0] is None {
                reveal_with_fuel(win_cnt, 2);
                reveal_with_fuel(row_cnt, 2);
                assert(win_cnt(g0, emp(), h as int, h as int, 0, bw) == 0);
                assert(row_cnt(g0[h - 1], emp(), 0, 0) == 0);
                assert(grid_view(grid)[h - 1][0] == scan_fill_bottom_up(
                    g0,
                    grains@,
                    h as int,
                    0,
                    bw,
                    h - 1,
                    0,
                ));
            }
        }
    }
    placed
}

/// Fills empty cells of the right edge band, rows bottom to top and
/// columns right to left inside a row, with grains from the bucket.
/// Returns how many grains were placed; the contract pins which grain
/// every band cell receives.
pub fn place_right_band(grid: &mut Vec<Vec<Cell>>, grains: &Vec<CategoryId>, band_w_px: usize) -> (placed: usize)
    requires
        grid_wf(grid_view(old(grid)), old(grid)@.len() as int, grid_w(old(grid))),
        band_w_px <= grid_w(old(grid)),
    ensures
        ({
            let g0 = grid_view(old(grid));
            let g1 = grid_view(final(grid));
            let h = old(grid)@.len() as int;
            let w = grid_w(old(grid));
            let xs = w - band_w_px;
            &&& grid_wf(g1, h, w)
            &&& placed <= grains@.len()
            &&& placed as int == min_i(grains@.len() as int, win_cnt(g0, emp(), 0, h, xs, w))
            &&& placed as int <= h * (band_w_px as int)
            &&& forall|y: int, x: int|
                0 <= y < h && 0 <= x < w && g0[y][x] is Some ==> #[trigger] g1[y][x] == g0[y][x]
            &&& forall|y: int, x: int|
                0 <= y < h && 0 <= x < xs ==> #[trigger] g1[y][x] == g0[y][x]
            &&& forall|y: int, x: int|
                0 <= y < h && xs <= x < w && g0[y][x] is None ==> #[trigger] g1[y][x]
                    == scan_fill_bottom_up_rtl(g0, grains@, h, xs, w, y, x)
            &&& (placed == 0 ==> g1 == g0)
            &&& forall|k: u64|
                grid_cnt(g1, #[trigger] cat(k), h, w) == grid_cnt(g0, cat(k), h, w) + seq_cnt_by(
                    grains@,
                    eq_cat(k),
                    0,
                    placed as int,
                )
            &&& grid_cnt(g1, occ(), h, w) == grid_cnt(g0, occ(), h, w) + placed
            &&& (placed < grains@.len() ==> forall|y: int, x: int|
                0 <= y < h && xs <= x < w ==> (#[trigger] g1[y][x]) is Some)
        }),
{
    let ghost g0 = grid_view(old(grid));
    let ghost w = grid_w(old(grid));
    let ghost n = grains@.len() as int;
    let h = grid.len();
    let wx = if h == 0 {
        0
    } else {
        grid[0].len()
    };
    proof {
        assert(wx as int == w);
    }
    let start = wx - band_w_px;
    let ghost xs = start as int;
    let nn = grains.len();
    let mut placed: usize = 0;
    let mut yi: usize = h;
    while yi > 0
        invariant
            h == old(grid)@.len(),
            w == grid_w(old(grid)),
            g0 == grid_view(old(grid)),
            grid_wf(g0, h as int, w),
            band_w_px <= w,
            wx as int == w,
            start == wx - band_w_px,
            xs == start as int,
            n == grains@.len() as int,
            nn == grains@.len(),
            yi <= h,
            grid_wf(grid_view(grid), h as int, w),
            placed <= nn,
            placed as int == min_i(n, win_cnt(g0, emp(), yi as int, h as int, xs, w)),
            forall|y: int, x: int|
                0 <= y < yi && 0 <= x < w ==> #[trigger] grid_view(grid)[y][x] == g0[y][x],
            forall|y: int, x: int|
                0 <= y < h && 0 <= x < xs ==> #[trigger] grid_view(grid)[y][x] == g0[y][x],
            forall|y: int, x: int|
                0 <= y < h && 0 <= x < w && g0[y][x] is Some ==> #[trigger] grid_view(grid)[y][x]
                    == g0[y][x],
            forall|y: int, x: int|
                yi <= y < h && xs <= x < w && g0[y][x] is None ==> #[trigger] grid_view(grid)[y][x]
                    == scan_fill_bottom_up_rtl(g0, grains@, h as int, xs, w, y, x),
            placed < nn ==> forall|y: int, x: int|
                yi <= y < h && xs <= x < w ==> (#[trigger] grid_view(grid)[y][x]) is Some,
            placed == 0 ==> grid_view(grid) == g0,
            forall|k: u64|
                grid_cnt(grid_view(grid), #[trigger] cat(k), h as int, w) == grid_cnt(
                    g0,
                    cat(k),
                    h as int,
                    w,
                ) + seq_cnt_by(grains@, eq_cat(k), 0, placed as int),
            grid_cnt(grid_view(grid), occ(), h as int, w) == grid_cnt(g0, occ(), h as int, w)
                + placed,
        decreases yi,
    {
        let y = yi - 1;
        let ghost e_row = win_cnt(g0, emp(), yi as int, h as int, xs, w);
        let mut xi: usize = wx;
        while xi > start
            invariant
                h == old(grid)@.len(),
                w == grid_w(old(grid)),
                g0 == grid_view(old(grid)),
                grid_wf(g0, h as int, w),
                band_w_px <= w,
                wx as int == w,
                start == wx - band_w_px,
                xs == start as int,
                n == grains@.len() as int,
                nn == grains@.len(),
                0 < yi <= h,
                y == yi - 1,
                start <= xi <= wx,
                grid_wf(grid_view(grid), h as int, w),
                placed <= nn,
                e_row == win_cnt(g0, emp(), yi as int, h as int, xs, w),
                placed as int == min_i(n, e_row + row_cnt(g0[y as int], emp(), xi as int, w)),
                forall|yy: int, xx: int|
                    0 <= yy < y && 0 <= xx < w ==> #[trigger] grid_view(grid)[yy][xx]
                        == g0[yy][xx],
                forall|xx: int|
                    0 <= xx < xi ==> #[trigger] grid_view(grid)[y as int][xx] == g0[y as int][xx],
                forall|yy: int, xx: int|
                    0 <= yy < h && 0 <= xx < xs ==> #[trigger] grid_view(grid)[yy][xx]
                        == g0[yy][xx],
                forall|yy: int, xx: int|
                    0 <= yy < h && 0 <= xx < w && g0[yy][xx] is Some ==> #[trigger] grid_view(
                        grid,
                    )[yy][xx] == g0[yy][xx],
                forall|yy: int, xx: int|
                    yi <= yy < h && xs <= xx < w && g0[yy][xx] is None ==> #[trigger] grid_view(
                        grid,
                    )[yy][xx] == scan_fill_bottom_up_rtl(g0, grains@, h as int, xs, w, yy, xx),
                forall|xx: int|
                    xi <= xx < w && g0[y as int][xx] is None ==> #[trigger] grid_view(
                        grid,
                    )[y as int][xx] == scan_fill_bottom_up_rtl(
                        g0,
                        grains@,
                        h as int,
                        xs,
                        w,
                        y as int,
                        xx,
                    ),
                placed < nn ==> forall|yy: int, xx: int|
                    yi <= yy < h && xs <= xx < w ==> (#[trigger] grid_view(grid)[yy][xx]) is Some,
                placed < nn ==> forall|xx: int|
                    xi <= xx < w ==> (#[trigger] grid_view(grid)[y as int][xx]) is Some,
                placed == 0 ==> grid_view(grid) == g0,
                forall|k: u64|
                    grid_cnt(grid_view(grid), #[trigger] cat(k), h as int, w) == grid_cnt(
                        g0,
                        cat(k),
                        h as int,
                        w,
                    ) + seq_cnt_by(grains@, eq_cat(k), 0, placed as int),
                grid_cnt(grid_view(grid), occ(), h as int, w) == grid_cnt(g0, occ(), h as int, w)
                    + placed,
            decreases xi,
        {
            let x = xi - 1;
            let ghost e_here = e_row + row_cnt(g0[y as int], emp(), xi as int, w);
            proof {
                assert(grid_view(grid)[y as int] == grid@[y as int]@);
                assert(grid_view(grid)[y as int].len() == w);
                assert(grid_view(grid)[y as int][x as int] == g0[y as int][x as int]);
            }
            if grid[y][x].is_none() {
                if placed < nn {
                    let ghost gprev = grid_view(grid);
                    proof {
                        assert(placed as int == e_here);
                    }
                    let c = grains[placed];
                    set_cell(grid, y, x, Some(c));
                    proof {
                        lemma_place_step(
                            gprev,
                            grid_view(grid),
                            g0,
                            h as int,
                            w,
                            y as int,
                            x as int,
                            grains@,
                            placed as int,
                        );
                    }
                    placed = placed + 1;
                }
            }
            proof {
                lemma_row_cnt_step_down(g0[y as int], emp(), x as int, w);
            }
            xi = xi - 1;
        }
        proof {
            lemma_win_cnt_row_step(g0, emp(), y as int, h as int, xs, w);
        }
        yi = yi - 1;
    }
    proof {
        lemma_win_cnt_bounds(g0, emp(), 0, h as int, xs, w);
    }
    placed
}

/// Fills empty cells of the top edge band, band rows from the inner
/// edge outward and columns left to right, with grains from the bucket.
/// Returns how many grains were placed; the contract pins which grain
/// every band cell receives.
pub fn place_top_band(grid: &mut Vec<Vec<Cell>>, grains: &Vec<CategoryId>, band_h_px: usize) -> (placed: usize)
    requires
        grid_wf(grid_view(old(grid)), old(grid)@.len() as int, grid_w(old(grid))),
        band_h_px <= old(grid)@.len(),
    ensures
        ({
            let g0 = grid_view(old(grid));
            let g1 = grid_view(final(grid));
            let h = old(grid)@.len() as int;
            let w = grid_w(old(grid));
            let bh = band_h_px as int;
            &&& grid_wf(g1, h, w)
            &&& placed <= grains@.len()
            &&& placed as int == min_i(grains@.len() as int, win_cnt(g0, emp(), 0, bh, 0, w))
            &&& placed as int <= bh * w
            &&& forall|y: int, x: int|
                0 <= y < h && 0 <= x < w && g0[y][x] is Some ==> #[trigger] g1[y][x] == g0[y][x]
            &&& forall|y: int, x: int|
                bh <= y < h && 0 <= x < w ==> #[trigger] g1[y][x] == g0[y][x]
            &&& forall|y: int, x: int|
                0 <= y < bh && 0 <= x < w && g0[y][x] is None ==> #[trigger] g1[y][x]
                    == scan_fill_bottom_up(g0, grains@, bh, 0, w, y, x)
            &&& (placed == 0 ==> g1 == g0)
            &&& forall|k: u64|
                grid_cnt(g1, #[trigger] cat(k), h, w) == grid_cnt(g0, cat(k), h, w) + seq_cnt_by(
                    grains@,
                    eq_cat(k),
                    0,
                    placed as int,
                )
            &&& grid_cnt(g1, occ(), h, w) == grid_cnt(g0, occ(), h, w) + placed
            &&& (placed < grains@.len() ==> forall|y: int, x: int|
                0 <= y < bh && 0 <= x < w ==> (#[trigger] g1[y][x]) is Some)
        }),
{
    let ghost g0 = grid_view(old(grid));
    let ghost w = grid_w(old(grid));
    let ghost n = grains@.len() as int;
    let ghost bh = band_h_px as int;
    let h = grid.len();
    let wx = if h == 0 {
        0
    } else {
        grid[0].len()
    };
    proof {
        assert(wx as int == w);
    }
    let nn = grains.len();
    let mut placed: usize = 0;
    let mut yi: usize = band_h_px;
    while yi > 0
        invariant
            h == old(grid)@.len(),
            w == grid_w(old(grid)),
            g0 == grid_view(old(grid)),
            grid_wf(g0, h as int, w),
            band_h_px <= h,
            bh == band_h_px as int,
            wx as int == w,
            n == grains@.len() as int,
            nn == grains@.len(),
            yi <= band_h_px,
            grid_wf(grid_view(grid), h as int, w),
            placed <= nn,
            placed as int == min_i(n, win_cnt(g0, emp(), yi as int, bh, 0, w)),
            forall|y: int, x: int|
                0 <= y < yi && 0 <= x < w ==> #[trigger] grid_view(grid)[y][x] == g0[y][x],
            forall|y: int, x: int|
                bh <= y < h && 0 <= x < w ==> #[trigger] grid_view(grid)[y][x] == g0[y][x],
            forall|y: int, x: int|
                0 <= y < h && 0 <= x < w && g0[y][x] is Some ==> #[trigger] grid_view(grid)[y][x]
                    == g0[y][x],
            forall|y: int, x: int|
                yi <= y < bh && 0 <= x < w && g0[y][x] is None ==> #[trigger] grid_view(grid)[y][x]
                    == scan_fill_bottom_up(g0, grains@, bh, 0, w, y, x),
            placed < nn ==> forall|y: int, x: int|
                yi <= y < bh && 0 <= x < w ==> (#[trigger] grid_view(grid)[y][x]) is Some,
            placed == 0 ==> grid_view(grid) == g0,
            forall|k: u64|
                grid_cnt(grid_view(grid), #[trigger] cat(k), h as int, w) == grid_cnt(
                    g0,
                    cat(k),
                    h as int,
                    w,
                ) + seq_cnt_by(grains@, eq_cat(k), 0, placed as int),
            grid_cnt(grid_view(grid), occ(), h as int, w) == grid_cnt(g0, occ(), h as int, w)
                + placed,
        decreases yi,
    {
        let y = yi - 1;
        let ghost e_row = win_cnt(g0, emp(), yi as int, bh, 0, w);
        let mut x: usize = 0;
        while x < wx
            invariant
                h == old(grid)@.len(),
                w == grid_w(old(grid)),
                g0 == grid_view(old(grid)),
                grid_wf(g0, h as int, w),
                band_h_px <= h,
                bh == band_h_px as int,
                wx as int == w,
                n == grains@.len() as int,
                nn == grains@.len(),
                0 < yi <= band_h_px,
                y == yi - 1,
                x <= wx,
                grid_wf(grid_view(grid), h as int, w),
                placed <= nn,
                e_row == win_cnt(g0, emp(), yi as int, bh, 0, w),
                placed as int == min_i(n, e_row + row_cnt(g0[y as int], emp(), 0, x as int)),
                forall|yy: int, xx: int|
                    0 <= yy < y && 0 <= xx < w ==> #[trigger] grid_view(grid)[yy][xx]
                        == g0[yy][xx],
                forall|xx: int|
                    x <= xx < w ==> #[trigger] grid_view(grid)[y as int][xx] == g0[y as int][xx],
                forall|yy: int, xx: int|
                    bh <= yy < h && 0 <= xx < w ==> #[trigger] grid_view(grid)[yy][xx]
                        == g0[yy][xx],
                forall|yy: int, xx: int|
                    0 <= yy < h && 0 <= xx < w && g0[yy][xx] is Some ==> #[trigger] grid_view(
                        grid,
                    )[yy][xx] == g0[yy][xx],
                forall|yy: int, xx: int|
                    yi <= yy < bh && 0 <= xx < w && g0[yy][xx] is None ==> #[trigger] grid_view(
                        grid,
                    )[yy][xx] == scan_fill_bottom_up(g0, grains@, bh, 0, w, yy, xx),
                forall|xx: int|
                    0 <= xx < x && g0[y as int][xx] is None ==> #[trigger] grid_view(
                        grid,
                    )[y as int][xx] == scan_fill_bottom_up(g0, grains@, bh, 0, w, y as int, xx),
                placed < nn ==> forall|yy: int, xx: int|
                    yi <= yy < bh && 0 <= xx < w ==> (#[trigger] grid_view(grid)[yy][xx]) is Some,
                placed < nn ==> forall|xx: int|
                    0 <= xx < x ==> (#[trigger] grid_view(grid)[y as int][xx]) is Some,
                placed == 0 ==> grid_view(grid) == g0,
                forall|k: u64|
                    grid_cnt(grid_view(grid), #[trigger] cat(k), h as int, w) == grid_cnt(
                        g0,
                        cat(k),
                        h as int,
                        w,
                    ) + seq_cnt_by(grains@, eq_cat(k), 0, placed as int),
                grid_cnt(grid_view(grid), occ(), h as int, w) == grid_cnt(g0, occ(), h as int, w)
                    + placed,
            decreases wx - x,
        {
            let ghost e_here = e_row + row_cnt(g0[y as int], emp(), 0, x as int);
            proof {
                assert(grid_view(grid)[y as int] == grid@[y as int]@);
                assert(grid_view(grid)[y as int].len() == w);
                assert(grid_view(grid)[y as int][x as int] == g0[y as int][x as int]);
            }
            if grid[y][x].is_none() {
                if placed < nn {
                    let ghost gprev = grid_view(grid);
                    proof {
                        assert(placed as int == e_here);
                    }
                    let c = grains[placed];
                    set_cell(grid, y, x, Some(c));
                    proof {
                        lemma_place_step(
                            gprev,
                            grid_view(grid),
                            g0,
                            h as int,
                            w,
                            y as int,
                            x as int,
                            grains@,
                            placed as int,
                        );
                    }
                    placed = placed + 1;
                }
            }
            proof {
                lemma_row_cnt_step(g0[y as int], emp(), 0, x as int);
            }
            x = x + 1;
        }
        proof {
            lemma_win_cnt_row_step(g0, emp(), y as int, bh, 0, w);
        }
        yi = yi - 1;
    }
    proof {
        lemma_win_cnt_bounds(g0, emp(), 0, bh, 0, w);
    }
    placed
}

/// Fills empty cells of the bottom edge band, rows top to bottom and
/// columns left to right, with grains from the bucket.  Returns how
/// many grains were placed; the contract pins which grain every band
/// cell receives.
pub fn place_bottom_band(grid: &mut Vec<Vec<Cell>>, grains: &Vec<CategoryId>, band_h_px: usize) -> (placed: usize)
    requires
        grid_wf(grid_view(old(grid)), old(grid)@.len() as int, grid_w(old(grid))),
        band_h_px <= old(grid)@.len(),
    ensures
        ({
            let g0 = grid_view(old(grid));
            let g1 = grid_view(final(grid));
            let h = old(grid)@.len() as int;
            let w = grid_w(old(grid));
            let ys = h - band_h_px;
            &&& grid_wf(g1, h, w)
            &&& placed <= grains@.len()
            &&& placed as int == min_i(grains@.len() as int, win_cnt(g0, emp(), ys, h, 0, w))
            &&& placed as int <= (band_h_px as int) * w
            &&& forall|y: int, x: int|
                0 <= y < h && 0 <= x < w && g0[y][x] is Some ==> #[trigger] g1[y][x] == g0[y][x]
            &&& forall|y: int, x: int|
                0 <= y < ys && 0 <= x < w ==> #[trigger] g1[y][x] == g0[y][x]
            &&& forall|y: int, x: int|
                ys <= y < h && 0 <= x < w && g0[y][x] is None ==> #[trigger] g1[y][x]
                    == scan_fill_top_down(g0, grains@, ys, 0, w, y, x)
            &&& (placed == 0 ==> g1 == g0)
            &&& forall|k: u64|
                grid_cnt(g1, #[trigger] cat(k), h, w) == grid_cnt(g0, cat(k), h, w) + seq_cnt_by(
                    grains@,
                    eq_cat(k),
                    0,
                    placed as int,
                )
            &&& grid_cnt(g1, occ(), h, w) == grid_cnt(g0, occ(), h, w) + placed
            &&& (placed < grains@.len() ==> forall|y: int, x: int|
                ys <= y < h && 0 <= x < w ==> (#[trigger] g1[y][x]) is Some)
        }),
{
    let ghost g0 = grid_view(old(grid));
    let ghost w = grid_w(old(grid));
    let ghost n = grains@.len() as int;
    let h = grid.len();
    let wx = if h == 0 {
        0
    } else {
        grid[0].len()
    };
    proof {
        assert(wx as int == w);
    }
    let start = h - band_h_px;
    let ghost ys = start as int;
    let nn = grains.len();
    let mut placed: usize = 0;
    let mut y: usize = start;
    while y < h
        invariant
            h == old(grid)@.len(),
            w == grid_w(old(grid)),
            g0 == grid_view(old(grid)),
            grid_wf(g0, h as int, w),
            band_h_px <= h,
            start == h - band_h_px,
            ys == start as int,
            wx as int == w,
            n == grains@.len() as int,
            nn == grains@.len(),
            start <= y <= h,
            grid_wf(grid_view(grid), h as int, w),
            placed <= nn,
            placed as int == min_i(n, win_cnt(g0, emp(), ys, y as int, 0, w)),
            forall|yy: int, xx: int|
                y <= yy < h && 0 <= xx < w ==> #[trigger] grid_view(grid)[yy][xx] == g0[yy][xx],
            forall|yy: int, xx: int|
                0 <= yy < ys && 0 <= xx < w ==> #[trigger] grid_view(grid)[yy][xx] == g0[yy][xx],
            forall|yy: int, xx: int|
                0 <= yy < h && 0 <= xx < w && g0[yy][xx] is Some ==> #[trigger] grid_view(
                    grid,
                )[yy][xx] == g0[yy][xx],
            forall|yy: int, xx: int|
                ys <= yy < y && 0 <= xx < w && g0[yy][xx] is None ==> #[trigger] grid_view(
                    grid,
                )[yy][xx] == scan_fill_top_down(g0, grains@, ys, 0, w, yy, xx),
            placed < nn ==> forall|yy: int, xx: int|
                ys <= yy < y && 0 <= xx < w ==> (#[trigger] grid_view(grid)[yy][xx]) is Some,
            placed == 0 ==> grid_view(grid) == g0,
            forall|k: u64|
                grid_cnt(grid_view(grid), #[trigger] cat(k), h as int, w) == grid_cnt(
                    g0,
                    cat(k),
                    h as int,
                    w,
                ) + seq_cnt_by(grains@, eq_cat(k), 0, placed as int),
            grid_cnt(grid_view(grid), occ(), h as int, w) == grid_cnt(g0, occ(), h as int, w)
                + placed,
        decreases h - y,
    {
        let ghost e_row = win_cnt(g0, emp(), ys, y as int, 0, w);
        let mut x: usize = 0;
        while x < wx
            invariant
                h == old(grid)@.len(),
                w == grid_w(old(grid)),
                g0 == grid_view(old(grid)),
                grid_wf(g0, h as int, w),
                band_h_px <= h,
                start == h - band_h_px,
                ys == start as int,
                wx as int == w,
                n == grains@.len() as int,
                nn == grains@.len(),
                start <= y < h,
                x <= wx,
                grid_wf(grid_view(grid), h as int, w),
                placed <= nn,
                e_row == win_cnt(g0, emp(), ys, y as int, 0, w),
                placed as int == min_i(n, e_row + row_cnt(g0[y as int], emp(), 0, x as int)),
                forall|yy: int, xx: int|
                    y < yy < h && 0 <= xx < w ==> #[trigger] grid_view(grid)[yy][xx]
                        == g0[yy][xx],
                forall|xx: int|
                    x <= xx < w ==> #[trigger] grid_view(grid)[y as int][xx] == g0[y as int][xx],
                forall|yy: int, xx: int|
                    0 <= yy < ys && 0 <= xx < w ==> #[trigger] grid_view(grid)[yy][xx]
                        == g0[yy][xx],
                forall|yy: int, xx: int|
                    0 <= yy < h && 0 <= xx < w && g0[yy][xx] is Some ==> #[trigger] grid_view(
                        grid,
                    )[yy][xx] == g0[yy][xx],
                forall|yy: int, xx: int|
                    ys <= yy < y && 0 <= xx < w && g0[yy][xx] is None ==> #[trigger] grid_view(
                        grid,
                    )[yy][xx] == scan_fill_top_down(g0, grains@, ys, 0, w, yy, xx),
                forall|xx: int|
                    0 <= xx < x && g0[y as int][xx] is None ==> #[trigger] grid_view(
                        grid,
                    )[y as int][xx] == scan_fill_top_down(g0, grains@, ys, 0, w, y as int, xx),
                placed < nn ==> forall|yy: int, xx: int|
                    ys <= yy < y && 0 <= xx < w ==> (#[trigger] grid_view(grid)[yy][xx]) is Some,
                placed < nn ==> forall|xx: int|
                    0 <= xx < x ==> (#[trigger] grid_view(grid)[y as int][xx]) is Some,
                placed == 0 ==> grid_view(grid) == g0,
                forall|k: u64|
                    grid_cnt(grid_view(grid), #[trigger] cat(k), h as int, w) == grid_cnt(
                        g0,
                        cat(k),
                        h as int,
                        w,
                    ) + seq_cnt_by(grains@, eq_cat(k), 0, placed as int),
                grid_cnt(grid_view(grid), occ(), h as int, w) == grid_cnt(g0, occ(), h as int, w)
                    + placed,
            decreases wx - x,
        {
            let ghost e_here = e_row + row_cnt(g0[y as int], emp(), 0, x as int);
            proof {
                assert(grid_view(grid)[y as int] == grid@[y as int]@);
                assert(grid_view(grid)[y as int].len() == w);
                assert(grid_view(grid)[y as int][x as int] == g0[y as int][x as int]);
            }
            if grid[y][x].is_none() {
                if placed < nn {
                    let ghost gprev = grid_view(grid);
                    proof {
                        assert(placed as int == e_here);
                    }
                    let c = grains[placed];
                    set_cell(grid, y, x, Some(c));
                    proof {
                        lemma_place_step(
                            gprev,
                            grid_view(grid),
                            g0,
                            h as int,
                            w,
                            y as int,
                            x as int,
                            grains@,
                            placed as int,
                        );
                    }
                    placed = placed + 1;
                }
            }
            proof {
                lemma_row_cnt_step(g0[y as int], emp(), 0, x as int);
            }
            x = x + 1;
        }
        proof {
            reveal_with_fuel(win_cnt, 2);
            assert(win_cnt(g0, emp(), ys, y as int + 1, 0, w) == win_cnt(
                g0,
                emp(),
                ys,
                y as int,
                0,
                w,
            ) + row_cnt(g0[y as int], emp(), 0, w));
        }
        y = y + 1;
    }
    proof {
        lemma_win_cnt_bounds(g0, emp(), ys, h as int, 0, w);
    }
    placed
}

/// Drops leftover grains into whatever empty cells remain, scanning
/// rows bottom to top and columns left to right within a row; grains
/// that find no empty cell are permanently lost.  Returns how many
/// grains were placed; the contract pins which grain every cell
/// receives.
pub fn place_overflow(grid: &mut Vec<Vec<Cell>>, grains: &Vec<CategoryId>) -> (placed: usize)
    requires
        grid_wf(grid_view(old(grid)), old(grid)@.len() as int, grid_w(old(grid))),
    ensures
        ({
            let g0 = grid_view(old(grid));
            let g1 = grid_view(final(grid));
            let h = old(grid)@.len() as int;
            let w = grid_w(old(grid));
            &&& grid_wf(g1, h, w)
            &&& placed <= grains@.len()
            &&& placed as int == min_i(grains@.len() as int, win_cnt(g0, emp(), 0, h, 0, w))
            &&& forall|y: int, x: int|
                0 <= y < h && 0 <= x < w && g0[y][x] is Some ==> #[trigger] g1[y][x] == g0[y][x]
            &&& forall|y: int, x: int|
                0 <= y < h && 0 <= x < w && g0[y][x] is None ==> #[trigger] g1[y][x]
                    == scan_fill_bottom_up(g0, grains@, h, 0, w, y, x)
            &&& (placed == 0 ==> g1 == g0)
            &&& forall|k: u64|
                grid_cnt(g1, #[trigger] cat(k), h, w) == grid_cnt(g0, cat(k), h, w) + seq_cnt_by(
                    grains@,
                    eq_cat(k),
                    0,
                    placed as int,
                )
            &&& grid_cnt(g1, occ(), h, w) == grid_cnt(g0, occ(), h, w) + placed
            &&& (placed < grains@.len() ==> forall|y: int, x: int|
                0 <= y < h && 0 <= x < w ==> (#[trigger] g1[y][x]) is Some)
        }),
{
    let ghost g0 = grid_view(old(grid));
    let ghost w = grid_w(old(grid));
    let ghost n = grains@.len() as int;
    let h = grid.len();
    let wx = if h == 0 {
        0
    } else {
        grid[0].len()
    };
    proof {
        assert(wx as int == w);
    }
    let nn = grains.len();
    let mut placed: usize = 0;
    let mut yi: usize = h;
    while yi > 0
        invariant
            h == old(grid)@.len(),
            w == grid_w(old(grid)),
            g0 == grid_view(old(grid)),
            grid_wf(g0, h as int, w),
            wx as int == w,
            n == grains@.len() as int,
            nn == grains@.len(),
            yi <= h,
            grid_wf(grid_view(grid), h as int, w),
            placed <= nn,
            placed as int == min_i(n, win_cnt(g0, emp(), yi as int, h as int, 0, w)),
            forall|y: int, x: int|
                0 <= y < yi && 0 <= x < w ==> #[trigger] grid_view(grid)[y][x] == g0[y][x],
            forall|y: int, x: int|
                0 <= y < h && 0 <= x < w && g0[y][x] is Some ==> #[trigger] grid_view(grid)[y][x]
                    == g0[y][x],
            forall|y: int, x: int|
                yi <= y < h && 0 <= x < w && g0[y][x] is None ==> #[trigger] grid_view(grid)[y][x]
                    == scan_fill_bottom_up(g0, grains@, h as int, 0, w, y, x),
            placed < nn ==> forall|y: int, x: int|
                yi <= y < h && 0 <= x < w ==> (#[trigger] grid_view(grid)[y][x]) is Some,
            placed == 0 ==> grid_view(grid) == g0,
            forall|k: u64|
                grid_cnt(grid_view(grid), #[trigger] cat(k), h as int, w) == grid_cnt(
                    g0,
                    cat(k),
                    h as int,
                    w,
                ) + seq_cnt_by(grains@, eq_cat(k), 0, placed as int),
            grid_cnt(grid_view(grid), occ(), h as int, w) == grid_cnt(g0, occ(), h as int, w)
                + placed,
        decreases yi,
    {
        let y = yi - 1;
        let ghost e_row = win_cnt(g0, emp(), yi as int, h as int, 0, w);
        let mut x: usize = 0;
        while x < wx
            invariant
                h == old(grid)@.len(),
                w == grid_w(old(grid)),
                g0 == grid_view(old(grid)),
                grid_wf(g0, h as int, w),
                wx as int == w,
                n == grains@.len() as int,
                nn == grains@.len(),
                0 < yi <= h,
                y == yi - 1,
                x <= wx,
                grid_wf(grid_view(grid), h as int, w),
                placed <= nn,
                e_row == win_cnt(g0, emp(), yi as int, h as int, 0, w),
                placed as int == min_i(n, e_row + row_cnt(g0[y as int], emp(), 0, x as int)),
                forall|yy: int, xx: int|
                    0 <= yy < y && 0 <= xx < w ==> #[trigger] grid_view(grid)[yy][xx]
                        == g0[yy][xx],
                forall|xx: int|
                    x <= xx < w ==> #[trigger] grid_view(grid)[y as int][xx] == g0[y as int][xx],
                forall|yy: int, xx: int|
                    0 <= yy < h && 0 <= xx < w && g0[yy][xx] is Some ==> #[trigger] grid_view(
                        grid,
                    )[yy][xx] == g0[yy][xx],
                forall|yy: int, xx: int|
                    yi <= yy < h && 0 <= xx < w && g0[yy][xx] is None ==> #[trigger] grid_view(
                        grid,
                    )[yy][xx] == scan_fill_bottom_up(g0, grains@, h as int, 0, w, yy, xx),
                forall|xx: int|
                    0 <= xx < x && g0[y as int][xx] is None ==> #[trigger] grid_view(
                        grid,
                    )[y as int][xx] == scan_fill_bottom_up(
                        g0,
                        grains@,
                        h as int,
                        0,
                        w,
                        y as int,
                        xx,
                    ),
                placed < nn ==> forall|yy: int, xx: int|
                    yi <= yy < h && 0 <= xx < w ==> (#[trigger] grid_view(grid)[yy][xx]) is Some,
                placed < nn ==> forall|xx: int|
                    0 <= xx < x ==> (#[trigger] grid_view(grid)[y as int][xx]) is Some,
                placed == 0 ==> grid_view(grid) == g0,
                forall|k: u64|
                    grid_cnt(grid_view(grid), #[trigger] cat(k), h as int, w) == grid_cnt(
                        g0,
                        cat(k),
                        h as int,
                        w,
                    ) + seq_cnt_by(grains@, eq_cat(k), 0, placed as int),
                grid_cnt(grid_view(grid), occ(), h as int, w) == grid_cnt(g0, occ(), h as int, w)
                    + placed,
            decreases wx - x,
        {
            let ghost e_here = e_row + row_cnt(g0[y as int], emp(), 0, x as int);
            proof {
                assert(grid_view(grid)[y as int] == grid@[y as int]@);
                assert(grid_view(grid)[y as int].len() == w);
                assert(grid_view(grid)[y as int][x as int] == g0[y as int][x as int]);
            }
            if grid[y][x].is_none() {
                if placed < nn {
                    let ghost gprev = grid_view(grid);
                    proof {
                        assert(placed as int == e_here);
                    }
                    let c = grains[placed];
                    set_cell(grid, y, x, Some(c));
                    proof {
                        lemma_place_step(
                            gprev,
                            grid_view(grid),
                            g0,
                            h as int,
                            w,
                            y as int,
                            x as int,
                            grains@,
                            placed as int,
                        );
                    }
                    placed = placed + 1;
                }
            }
            proof {
                lemma_row_cnt_step(g0[y as int], emp(), 0, x as int);
            }
            x = x + 1;
        }
        proof {
            lemma_win_cnt_row_step(g0, emp(), y as int, h as int, 0, w);
        }
        yi = yi - 1;
    }
    placed
}

/// Chains the per-category accounting of a full resize: starting from
/// the pasted copy of the kept window, the four band passes and the
/// overflow pass place prefixes of the buckets and of the overflow
/// list, and the overflow list holds exactly the unplaced tails, so
/// the final grid misses exactly the unplaced overflow tail of each
/// category.
#[verifier::rlimit(100)]
proof fn lemma_resize_cat_counts(
    ov: Seq<Seq<Cell>>,
    cv: Seq<Seq<Cell>>,
    nv: Seq<Seq<Cell>>,
    left: Seq<CategoryId>,
    right: Seq<CategoryId>,
    top: Seq<CategoryId>,
    bottom: Seq<CategoryId>,
    r4: Seq<CategoryId>,
    ohi: int,
    owi: int,
    nhi: int,
    nwi: int,
    x0i: int,
    x1i: int,
    xdi: int,
    y0i: int,
    y1i: int,
    ydi: int,
    pl: int,
    pr: int,
    pt: int,
    pb: int,
    po: int,
)
    requires
        0 <= x0i <= x1i <= owi,
        0 <= y0i <= y1i <= ohi,
        0 <= xdi,
        0 <= ydi,
        xdi + (x1i - x0i) <= nwi,
        ydi + (y1i - y0i) <= nhi,
        forall|i: int, j: int|
            0 <= i < y1i - y0i && 0 <= j < x1i - x0i ==> #[trigger] cv[ydi + i][xdi + j]
                == ov[y0i + i][x0i + j],
        forall|y: int, x: int|
            0 <= y < nhi && 0 <= x < nwi && !(ydi <= y < ydi + (y1i - y0i) && xdi <= x < xdi + (x1i
                - x0i)) ==> (#[trigger] cv[y][x]) is None,
        forall|k: u64|
            #[trigger] seq_cnt_by(left, eq_cat(k), 0, left.len() as int) == win_cnt(
                ov,
                cat(k),
                0,
                ohi,
                0,
                x0i,
            ),
        forall|k: u64|
            #[trigger] seq_cnt_by(right, eq_cat(k), 0, right.len() as int) == win_cnt(
                ov,
                cat(k),
                0,
                ohi,
                x1i,
                owi,
            ),
        forall|k: u64|
            #[trigger] seq_cnt_by(top, eq_cat(k), 0, top.len() as int) == win_cnt(
                ov,
                cat(k),
                0,
                y0i,
                x0i,
                x1i,
            ),
        forall|k: u64|
            #[trigger] seq_cnt_by(bottom, eq_cat(k), 0, bottom.len() as int) == win_cnt(
                ov,
                cat(k),
                y1i,
                ohi,
                x0i,
                x1i,
            ),
        0 <= pl <= left.len(),
        0 <= pr <= right.len(),
        0 <= pt <= top.len(),
        0 <= pb <= bottom.len(),
        0 <= po <= r4.len(),
        forall|k: u64|
            #[trigger] seq_cnt_by(r4, eq_cat(k), 0, r4.len() as int) == seq_cnt_by(
                left,
                eq_cat(k),
                pl,
                left.len() as int,
            ) + seq_cnt_by(right, eq_cat(k), pr, right.len() as int) + seq_cnt_by(
                top,
                eq_cat(k),
                pt,
                top.len() as int,
            ) + seq_cnt_by(bottom, eq_cat(k), pb, bottom.len() as int),
        forall|k: u64|
            grid_cnt(nv, #[trigger] cat(k), nhi, nwi) == grid_cnt(cv, cat(k), nhi, nwi)
                + seq_cnt_by(left, eq_cat(k), 0, pl) + seq_cnt_by(right, eq_cat(k), 0, pr)
                + seq_cnt_by(top, eq_cat(k), 0, pt) + seq_cnt_by(bottom, eq_cat(k), 0, pb)
                + seq_cnt_by(r4, eq_cat(k), 0, po),
    ensures
        forall|k: u64|
            grid_cnt(nv, #[trigger] cat(k), nhi, nwi) == grid_cnt(ov, cat(k), ohi, owi)
                - seq_cnt_by(r4, eq_cat(k), po, r4.len() as int),
{
    assert forall|k: u64|
        grid_cnt(nv, #[trigger] cat(k), nhi, nwi) == grid_cnt(ov, cat(k), ohi, owi) - seq_cnt_by(
            r4,
            eq_cat(k),
            po,
            r4.len() as int,
        ) by {
        let f = cat(k);
        let p = eq_cat(k);
        lemma_copy_counts(ov, cv, f, nhi, nwi, x0i, x1i, xdi, y0i, y1i, ydi);
        lemma_grid_decompose(ov, f, ohi, owi, y0i, y1i, x0i, x1i);
        lemma_seq_cnt_by_split(r4, p, 0, po, r4.len() as int);
        lemma_seq_cnt_by_split(left, p, 0, pl, left.len() as int);
        lemma_seq_cnt_by_split(right, p, 0, pr, right.len() as int);
        lemma_seq_cnt_by_split(top, p, 0, pt, top.len() as int);
        lemma_seq_cnt_by_split(bottom, p, 0, pb, bottom.len() as int);
    }
}

/// Rebuilds the grid for a new size.  The centered kept window of the
/// old grid is copied in place; grains cut off by an edge pile up in a
/// band along that edge of the new grid; whatever does not fit there
/// falls into the remaining empty cells, bottom row first, and only
/// grains that find no empty cell at all are dropped.
///
/// The contract pins down the conservation behaviour: no resize ever
/// invents a grain or changes a grain's category (every per-category
/// count can only shrink); grains inside the kept window survive at
/// their shifted position; the result holds exactly
/// `min(N, new capacity)` grains, so a grain is dropped only when the
/// whole new grid is full; and whenever the new capacity suffices —
/// in particular whenever both dimensions grow or stay — every
/// per-category count is preserved exactly.
#[verifier::rlimit(100)]
#[verifier::spinoff_prover]
pub fn resize_grid(
    old_grid: &Vec<Vec<Cell>>,
    new_w: usize,
    new_h: usize,
    dot_width: usize,
    dot_height: usize,
) -> (g: Vec<Vec<Cell>>)
    requires
        grid_wf(grid_view(old_grid), old_grid@.len() as int, grid_w(old_grid)),
        (new_h as int) * (new_w as int) <= usize::MAX as int,
        6 * (dot_width as int) <= usize::MAX as int,
        3 * (dot_height as int) <= usize::MAX as int,
    ensures
        ({
            let ov = grid_view(old_grid);
            let nv = grid_view(&g);
            let oh = old_grid@.len() as int;
            let ow = grid_w(old_grid);
            let nh = new_h as int;
            let nw = new_w as int;
            let x0 = kw_src_start(ow, nw);
            let x1 = kw_src_end(ow, nw);
            let xd = kw_dest_off(ow, nw);
            let y0 = kw_src_start(oh, nh);
            let y1 = kw_src_end(oh, nh);
            let yd = kw_dest_off(oh, nh);
            &&& grid_wf(nv, nh, nw)
            &&& ((oh == 0 || ow == 0) ==> forall|y: int, x: int|
                0 <= y < nh && 0 <= x < nw ==> (#[trigger] nv[y][x]) is None)
            &&& forall|k: u64|
                grid_cnt(nv, #[trigger] cat(k), nh, nw) <= grid_cnt(ov, cat(k), oh, ow)
            &&& grid_cnt(nv, occ(), nh, nw) <= grid_cnt(ov, occ(), oh, ow)
            &&& grid_cnt(nv, occ(), nh, nw) == min_i(grid_cnt(ov, occ(), oh, ow), nh * nw)
            &&& (grid_cnt(ov, occ(), oh, ow) <= nh * nw ==> forall|k: u64|
                grid_cnt(nv, #[trigger] cat(k), nh, nw) == grid_cnt(ov, cat(k), oh, ow))
            &&& (forall|i: int, j: int|
                0 <= i < y1 - y0 && 0 <= j < x1 - x0 && ov[y0 + i][x0 + j] is Some
                    ==> #[trigger] nv[yd + i][xd + j] == ov[y0 + i][x0 + j])
            &&& (oh > 0 && ow > 0 && all_in_window(ov, oh, ow, y0, y1, x0, x1) ==> {
                &&& forall|k: u64|
                    grid_cnt(nv, #[trigger] cat(k), nh, nw) == grid_cnt(ov, cat(k), oh, ow)
                &&& grid_cnt(nv, occ(), nh, nw) == grid_cnt(ov, occ(), oh, ow)
                &&& forall|i: int, j: int|
                    0 <= i < y1 - y0 && 0 <= j < x1 - x0 ==> #[trigger] nv[yd + i][xd + j]
                        == ov[y0 + i][x0 + j]
                &&& forall|y: int, x: int|
                    0 <= y < nh && 0 <= x < nw && !(yd <= y < yd + (y1 - y0) && xd <= x < xd + (x1
                        - x0)) ==> (#[trigger] nv[y][x]) is None
            })
            &&& (oh > 0 && ow > 0 && nh > 0 && nw > 0 && dot_width > 0 && win_cnt(
                ov,
                occ(),
                0,
                oh,
                0,
                x0,
            ) > 0 ==> nv[nh - 1][0] is Some)
        }),
{
    let ghost ov = grid_view(old_grid);
    let oh = old_grid.len();
    let ow = if oh == 0 {
        0
    } else {
        old_grid[0].len()
    };
    proof {
        if oh > 0 {
            assert(ov[0] == old_grid@[0]@);
        }
        assert(ow as int == grid_w(old_grid));
    }

    if ow == 0 || oh == 0 || new_w == 0 || new_h == 0 {
        let g = make_grid(new_h, new_w);
        proof {
            let nv = grid_view(&g);
            let nh = new_h as int;
            let nw = new_w as int;
            assert forall|y: int, x: int| 0 <= y < nh && 0 <= x < nw implies !occ()(
                #[trigger] nv[y][x],
            ) by {
                assert(nv[y][x] is None);
            }
            lemma_win_cnt_false(nv, occ(), 0, nh, 0, nw);
            lemma_win_cnt_bounds(ov, occ(), 0, oh as int, 0, ow as int);
            assert forall|k: u64|
                grid_cnt(nv, #[trigger] cat(k), nh, nw) <= grid_cnt(
                    ov,
                    cat(k),
                    oh as int,
                    ow as int,
                ) by {
                assert forall|y: int, x: int| 0 <= y < nh && 0 <= x < nw implies !cat(k)(
                    #[trigger] nv[y][x],
                ) by {
                    assert(nv[y][x] is None);
                }
                lemma_win_cnt_false(nv, cat(k), 0, nh, 0, nw);
                lemma_win_cnt_bounds(ov, cat(k), 0, oh as int, 0, ow as int);
            }
            if oh == 0 || ow == 0 {
                assert(grid_cnt(ov, occ(), oh as int, ow as int) == 0);
            }
            assert(nh * nw >= 0) by (nonlinear_arith)
                requires
                    nh >= 0,
                    nw >= 0,
            ;
            assert(grid_cnt(nv, occ(), nh, nw) == min_i(
                grid_cnt(ov, occ(), oh as int, ow as int),
                nh * nw,
            ));
            if grid_cnt(ov, occ(), oh as int, ow as int) <= nh * nw {
                assert forall|k: u64|
                    grid_cnt(nv, #[trigger] cat(k), nh, nw) == grid_cnt(
                        ov,
                        cat(k),
                        oh as int,
                        ow as int,
                    ) by {
                    assert forall|y: int, x: int| 0 <= y < nh && 0 <= x < nw implies !cat(k)(
                        #[trigger] nv[y][x],
                    ) by {
                        assert(nv[y][x] is None);
                    }
                    lemma_win_cnt_false(nv, cat(k), 0, nh, 0, nw);
                    lemma_win_cnt_bounds(ov, cat(k), 0, oh as int, 0, ow as int);
                    assert forall|c: Cell| #[trigger] cat(k)(c) implies occ()(c) by {}
                    lemma_win_cnt_mono(ov, cat(k), occ(), 0, oh as int, 0, ow as int);
                }
            }
            let x0 = kw_src_start(ow as int, nw);
            let x1 = kw_src_end(ow as int, nw);
            let y0 = kw_src_start(oh as int, nh);
            let y1 = kw_src_end(oh as int, nh);
            if oh > 0 && ow > 0 && all_in_window(ov, oh as int, ow as int, y0, y1, x0, x1) {
                assert(y1 - y0 == 0 || x1 - x0 == 0);
                assert forall|y: int, x: int| 0 <= y < oh && 0 <= x < ow implies !occ()(
                    #[trigger] ov[y][x],
                ) by {
                    assert(ov[y][x] is None);
                }
                lemma_win_cnt_false(ov, occ(), 0, oh as int, 0, ow as int);
                assert forall|k: u64|
                    grid_cnt(nv, #[trigger] cat(k), nh, nw) == grid_cnt(
                        ov,
                        cat(k),
                        oh as int,
                        ow as int,
                    ) by {
                    assert forall|y: int, x: int| 0 <= y < oh && 0 <= x < ow implies !cat(k)(
                        #[trigger] ov[y][x],
                    ) by {
                        assert(ov[y][x] is None);
                    }
                    lemma_win_cnt_false(ov, cat(k), 0, oh as int, 0, ow as int);
                    assert forall|y: int, x: int| 0 <= y < nh && 0 <= x < nw implies !cat(k)(
                        #[trigger] nv[y][x],
                    ) by {
                        assert(nv[y][x] is None);
                    }
                    lemma_win_cnt_false(nv, cat(k), 0, nh, 0, nw);
                }
            }
        }
        return g;
    }

    resize_grid_filled(old_grid, new_w, new_h, dot_width, dot_height)
}

/// The main path of `resize_grid`, for grids and viewports with both
/// dimensions positive: copy the kept window, classify and place the
/// cut-off grains, and account for every category.
#[verifier::rlimit(100)]
#[verifier::spinoff_prover]
fn resize_grid_filled(
    old_grid: &Vec<Vec<Cell>>,
    new_w: usize,
    new_h: usize,
    dot_width: usize,
    dot_height: usize,
) -> (g: Vec<Vec<Cell>>)
    requires
        grid_wf(grid_view(old_grid), old_grid@.len() as int, grid_w(old_grid)),
        (new_h as int) * (new_w as int) <= usize::MAX as int,
        6 * (dot_width as int) <= usize::MAX as int,
        3 * (dot_height as int) <= usize::MAX as int,
        old_grid@.len() > 0,
        grid_w(old_grid) > 0,
        new_w > 0,
        new_h > 0,
    ensures
        ({
            let ov = grid_view(old_grid);
            let nv = grid_view(&g);
            let oh = old_grid@.len() as int;
            let ow = grid_w(old_grid);
            let nh = new_h as int;
            let nw = new_w as int;
            let x0 = kw_src_start(ow, nw);
            let x1 = kw_src_end(ow, nw);
            let xd = kw_dest_off(ow, nw);
            let y0 = kw_src_start(oh, nh);
            let y1 = kw_src_end(oh, nh);
            let yd = kw_dest_off(oh, nh);
            &&& grid_wf(nv, nh, nw)
            &&& ((oh == 0 || ow == 0) ==> forall|y: int, x: int|
                0 <= y < nh && 0 <= x < nw ==> (#[trigger] nv[y][x]) is None)
            &&& forall|k: u64|
                grid_cnt(nv, #[trigger] cat(k), nh, nw) <= grid_cnt(ov, cat(k), oh, ow)
            &&& grid_cnt(nv, occ(), nh, nw) <= grid_cnt(ov, occ(), oh, ow)
            &&& grid_cnt(nv, occ(), nh, nw) == min_i(grid_cnt(ov, occ(), oh, ow), nh * nw)
            &&& (grid_cnt(ov, occ(), oh, ow) <= nh * nw ==> forall|k: u64|
                grid_cnt(nv, #[trigger] cat(k), nh, nw) == grid_cnt(ov, cat(k), oh, ow))
            &&& (forall|i: int, j: int|
                0 <= i < y1 - y0 && 0 <= j < x1 - x0 && ov[y0 + i][x0 + j] is Some
                    ==> #[trigger] nv[yd + i][xd + j] == ov[y0 + i][x0 + j])
            &&& (oh > 0 && ow > 0 && all_in_window(ov, oh, ow, y0, y1, x0, x1) ==> {
                &&& forall|k: u64|
                    grid_cnt(nv, #[trigger] cat(k), nh, nw) == grid_cnt(ov, cat(k), oh, ow)
                &&& grid_cnt(nv, occ(), nh, nw) == grid_cnt(ov, occ(), oh, ow)
                &&& forall|i: int, j: int|
                    0 <= i < y1 - y0 && 0 <= j < x1 - x0 ==> #[trigger] nv[yd + i][xd + j]
                        == ov[y0 + i][x0 + j]
                &&& forall|y: int, x: int|
                    0 <= y < nh && 0 <= x < nw && !(yd <= y < yd + (y1 - y0) && xd <= x < xd + (x1
                        - x0)) ==> (#[trigger] nv[y][x]) is None
            })
            &&& (oh > 0 && ow > 0 && nh > 0 && nw > 0 && dot_width > 0 && win_cnt(
                ov,
                occ(),
                0,
                oh,
                0,
                x0,
            ) > 0 ==> nv[nh - 1][0] is Some)
        }),
{
    let ghost ov = grid_view(old_grid);
    let oh = old_grid.len();
    let ow = if oh == 0 {
        0
    } else {
        old_grid[0].len()
    };
    proof {
        if oh > 0 {
            assert(ov[0] == old_grid@[0]@);
        }
        assert(ow as int == grid_w(old_grid));
    }

    let (x0, x1, xd) = kept_window(ow, new_w);
    let (y0, y1, yd) = kept_window(oh, new_h);

    let mut ng = copy_window(old_grid, new_w, new_h, x0, x1, xd, y0, y1, yd);
    let ghost cv = grid_view(&ng);

    let lost = classify_lost_grains(old_grid, x0, x1, y0, y1);

    let new_cell_w = if dot_width == 0 {
        0
    } else {
        new_w / dot_width
    };
    let new_cell_h = if dot_height == 0 {
        0
    } else {
        new_h / dot_height
    };
    let qw = new_cell_w / 40;
    let band_w = if qw < 2 {
        2
    } else if qw > 6 {
        6
    } else {
        qw
    };
    let qh = new_cell_h / 40;
    let band_h = if qh < 1 {
        1
    } else if qh > 3 {
        3
    } else {
        qh
    };
    proof {
        assert((band_w as int) * (dot_width as int) <= 6 * (dot_width as int)) by (nonlinear_arith)
            requires
                band_w <= 6,
                dot_width >= 0,
        ;
        assert((band_h as int) * (dot_height as int) <= 3 * (dot_height as int))
            by (nonlinear_arith)
            requires
                band_h <= 3,
                dot_height >= 0,
        ;
    }
    let band_w_raw = band_w * dot_width;
    let band_h_raw = band_h * dot_height;
    let band_w_px = if band_w_raw < new_w {
        band_w_raw
    } else {
        new_w
    };
    let band_h_px = if band_h_raw < new_h {
        band_h_raw
    } else {
        new_h
    };

    proof {
        assert(grid_view(&ng)[0] == ng@[0]@);
        assert(grid_w(&ng) == new_w as int);
    }

    let pl = place_left_band(&mut ng, &lost.left, band_w_px);
    let ghost v1 = grid_view(&ng);
    proof {
        assert(grid_view(&ng)[0] == ng@[0]@);
        assert(grid_w(&ng) == new_w as int);
    }
    let pr = place_right_band(&mut ng, &lost.right, band_w_px);
    let ghost v2 = grid_view(&ng);
    proof {
        assert(grid_view(&ng)[0] == ng@[0]@);
        assert(grid_w(&ng) == new_w as int);
    }
    let pt = place_top_band(&mut ng, &lost.top, band_h_px);
    let ghost v3 = grid_view(&ng);
    proof {
        assert(grid_view(&ng)[0] == ng@[0]@);
        assert(grid_w(&ng) == new_w as int);
    }
    let pb = place_bottom_band(&mut ng, &lost.bottom, band_h_px);
    let ghost v4 = grid_view(&ng);

    let mut remaining: Vec<CategoryId> = Vec::new();
    append_tail(&mut remaining, &lost.left, pl);
    let ghost r1 = remaining@;
    append_tail(&mut remaining, &lost.right, pr);
    let ghost r2 = remaining@;
    append_tail(&mut remaining, &lost.top, pt);
    let ghost r3 = remaining@;
    append_tail(&mut remaining, &lost.bottom, pb);
    let ghost r4 = remaining@;

    proof {
        assert(grid_view(&ng)[0] == ng@[0]@);
        assert(grid_w(&ng) == new_w as int);
    }
    let po = place_overflow(&mut ng, &remaining);
    let ghost nv = grid_view(&ng);

    proof {
        let ohi = oh as int;
        let owi = ow as int;
        let nhi = new_h as int;
        let nwi = new_w as int;
        let x0i = x0 as int;
        let x1i = x1 as int;
        let xdi = xd as int;
        let y0i = y0 as int;
        let y1i = y1 as int;
        let ydi = yd as int;
        let ll = lost.left@.len() as int;
        let lr = lost.right@.len() as int;
        let lt = lost.top@.len() as int;
        let lb = lost.bottom@.len() as int;
        let ml = min_i(pl as int, ll);
        let mr = min_i(pr as int, lr);
        let mt = min_i(pt as int, lt);
        let mb = min_i(pb as int, lb);
        assert(ml == pl as int && mr == pr as int && mt == pt as int && mb == pb as int);

        // Per-category accounting: the overflow list holds exactly the
        // unplaced tail of each bucket, and each pass placed a prefix.
        assert forall|k: u64|
            #[trigger] seq_cnt_by(r4, eq_cat(k), 0, r4.len() as int) == seq_cnt_by(
                lost.left@,
                eq_cat(k),
                pl as int,
                ll,
            ) + seq_cnt_by(lost.right@, eq_cat(k), pr as int, lr) + seq_cnt_by(
                lost.top@,
                eq_cat(k),
                pt as int,
                lt,
            ) + seq_cnt_by(lost.bottom@, eq_cat(k), pb as int, lb) by {}
        assert forall|k: u64|
            grid_cnt(nv, #[trigger] cat(k), nhi, nwi) == grid_cnt(cv, cat(k), nhi, nwi)
                + seq_cnt_by(lost.left@, eq_cat(k), 0, pl as int) + seq_cnt_by(
                lost.right@,
                eq_cat(k),
                0,
                pr as int,
            ) + seq_cnt_by(lost.top@, eq_cat(k), 0, pt as int) + seq_cnt_by(
                lost.bottom@,
                eq_cat(k),
                0,
                pb as int,
            ) + seq_cnt_by(r4, eq_cat(k), 0, po as int) by {}
        lemma_resize_cat_counts(
            ov,
            cv,
            nv,
            lost.left@,
            lost.right@,
            lost.top@,
            lost.bottom@,
            r4,
            ohi,
            owi,
            nhi,
            nwi,
            x0i,
            x1i,
            xdi,
            y0i,
            y1i,
            ydi,
            pl as int,
            pr as int,
            pt as int,
            pb as int,
            po as int,
        );
        assert forall|k: u64|
            grid_cnt(nv, #[trigger] cat(k), nhi, nwi) <= grid_cnt(ov, cat(k), ohi, owi) by {
            lemma_seq_cnt_by_bounds(r4, eq_cat(k), po as int, r4.len() as int);
        }

        // Total occupancy accounting.
        lemma_copy_counts(ov, cv, occ(), nhi, nwi, x0i, x1i, xdi, y0i, y1i, ydi);
        lemma_grid_decompose(ov, occ(), ohi, owi, y0i, y1i, x0i, x1i);
        assert(grid_cnt(nv, occ(), nhi, nwi) == win_cnt(ov, occ(), y0i, y1i, x0i, x1i) + pl + pr
            + pt + pb + po);
        assert(r4.len() as int == (ll - pl) + (lr - pr) + (lt - pt) + (lb - pb));
        assert(grid_cnt(nv, occ(), nhi, nwi) <= grid_cnt(ov, occ(), ohi, owi));

        // The result holds min(N, capacity) grains: either every
        // leftover grain found a cell, or the grid ended full.
        if (po as int) < r4.len() {
            assert forall|y: int, x: int| 0 <= y < nhi && 0 <= x < nwi implies occ()(
                #[trigger] nv[y][x],
            ) by {
                assert(nv[y][x] is Some);
            }
            lemma_win_cnt_true(nv, occ(), 0, nhi, 0, nwi);
            assert(grid_cnt(nv, occ(), nhi, nwi) == nhi * nwi);
        } else {
            assert(po as int == r4.len());
            assert(grid_cnt(nv, occ(), nhi, nwi) == grid_cnt(ov, occ(), ohi, owi));
            lemma_win_cnt_bounds(nv, occ(), 0, nhi, 0, nwi);
        }
        assert(grid_cnt(nv, occ(), nhi, nwi) == min_i(grid_cnt(ov, occ(), ohi, owi), nhi * nwi));

        // Exact per-category conservation whenever the capacity
        // suffices: then the overflow pass placed everything.
        if grid_cnt(ov, occ(), ohi, owi) <= nhi * nwi {
            assert(po as int == r4.len());
            assert forall|k: u64|
                grid_cnt(nv, #[trigger] cat(k), nhi, nwi) == grid_cnt(ov, cat(k), ohi, owi) by {
                assert(seq_cnt_by(r4, eq_cat(k), po as int, r4.len() as int) == 0);
            }
        }

        // Conservation when nothing was cut off.
        if all_in_window(ov, ohi, owi, y0i, y1i, x0i, x1i) {
            assert forall|y: int, x: int|
                0 <= y < ohi && 0 <= x < owi && !(y0i <= y < y1i && x0i <= x < x1i) implies !occ()(
                #[trigger] ov[y][x],
            ) by {
                assert(ov[y][x] is None);
            }
            lemma_win_cnt_false(ov, occ(), 0, ohi, 0, x0i);
            lemma_win_cnt_false(ov, occ(), 0, ohi, x1i, owi);
            lemma_win_cnt_false(ov, occ(), 0, y0i, x0i, x1i);
            lemma_win_cnt_false(ov, occ(), y1i, ohi, x0i, x1i);
            assert(ll == 0 && lr == 0 && lt == 0 && lb == 0);
            assert(pl == 0 && pr == 0 && pt == 0 && pb == 0);
            assert(r4.len() == 0);
            assert(po == 0);
            assert(nv == cv);
            assert forall|k: u64|
                grid_cnt(nv, #[trigger] cat(k), nhi, nwi) == grid_cnt(ov, cat(k), ohi, owi) by {
                let f = cat(k);
                lemma_copy_counts(ov, cv, f, nhi, nwi, x0i, x1i, xdi, y0i, y1i, ydi);
                lemma_grid_decompose(ov, f, ohi, owi, y0i, y1i, x0i, x1i);
                assert forall|y: int, x: int|
                    0 <= y < ohi && 0 <= x < owi && !(y0i <= y < y1i && x0i <= x < x1i) implies !f(
                    #[trigger] ov[y][x],
                ) by {
                    assert(ov[y][x] is None);
                }
                lemma_win_cnt_false(ov, f, 0, ohi, 0, x0i);
                lemma_win_cnt_false(ov, f, 0, ohi, x1i, owi);
                lemma_win_cnt_false(ov, f, 0, y0i, x0i, x1i);
                lemma_win_cnt_false(ov, f, y1i, ohi, x0i, x1i);
            }
        }

        // Grains of the kept window survive at their shifted position.
        assert forall|i: int, j: int|
            0 <= i < y1i - y0i && 0 <= j < x1i - x0i && ov[y0i + i][x0i + j] is Some
                implies #[trigger] nv[ydi + i][xdi + j] == ov[y0i + i][x0i + j] by {
            assert(cv[ydi + i][xdi + j] == ov[y0i + i][x0i + j]);
            assert(v1[ydi + i][xdi + j] == cv[ydi + i][xdi + j]);
            assert(v2[ydi + i][xdi + j] == v1[ydi + i][xdi + j]);
            assert(v3[ydi + i][xdi + j] == v2[ydi + i][xdi + j]);
            assert(v4[ydi + i][xdi + j] == v3[ydi + i][xdi + j]);
            assert(nv[ydi + i][xdi + j] == v4[ydi + i][xdi + j]);
        }

        // A nonempty left bucket leaves a grain at the bottom-left cell.
        if dot_width > 0 && win_cnt(ov, occ(), 0, ohi, 0, x0i) > 0 {
            assert(band_w_px > 0) by {
                assert((band_w as int) * (dot_width as int) >= 2) by (nonlinear_arith)
                    requires
                        band_w >= 2,
                        dot_width >= 1,
                ;
            }
            assert(lost.left@.len() > 0);
            assert(v1[nhi - 1][0] is Some);
            assert(v2[nhi - 1][0] == v1[nhi - 1][0]);
            assert(v3[nhi - 1][0] == v2[nhi - 1][0]);
            assert(v4[nhi - 1][0] == v3[nhi - 1][0]);
            assert(nv[nhi - 1][0] == v4[nhi - 1][0]);
        }
    }
    ng
}

} // verus!
