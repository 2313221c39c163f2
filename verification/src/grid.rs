//! The dense particle grid and its counting theory.
//!
//! A grid is a `Vec` of rows, each row a `Vec` of optional category
//! tags; an occupied cell *is* a grain.  The spec layer views a grid as
//! a `Seq<Seq<Cell>>` and counts cells through an arbitrary cell
//! predicate, which lets the same lemmas serve both the total grain
//! count and the per-category counts.

use vstd::prelude::*;

use crate::domain::CategoryId;

verus! {

/// One grid cell: empty, or a grain tagged with its category.
pub type Cell = Option<CategoryId>;

/// The mathematical view of a grid: a sequence of rows of cells.
pub open spec fn grid_view(g: &Vec<Vec<Cell>>) -> Seq<Seq<Cell>> {
    Seq::new(g@.len() as nat, |y: int| g@[y]@)
}

/// A well-formed grid: exactly `h` rows of `w` cells each.
pub open spec fn grid_wf(g: Seq<Seq<Cell>>, h: int, w: int) -> bool {
    &&& g.len() == h
    &&& forall|y: int| 0 <= y < h ==> (#[trigger] g[y]).len() == w
}

/// Predicate selecting occupied cells.
pub open spec fn occ() -> spec_fn(Cell) -> bool {
    |c: Cell| c is Some
}

/// Predicate selecting grains tagged with category `k`.
pub open spec fn cat(k: u64) -> spec_fn(Cell) -> bool {
    |c: Cell| c == Some(CategoryId(k))
}

/// Predicate selecting empty cells.
pub open spec fn emp() -> spec_fn(Cell) -> bool {
    |c: Cell| c is None
}

/// Number of cells of `r[lo..hi]` that satisfy `f`.
pub open spec fn row_cnt(r: Seq<Cell>, f: spec_fn(Cell) -> bool, lo: int, hi: int) -> int
    decreases hi - lo,
{
    if lo >= hi {
        0
    } else {
        row_cnt(r, f, lo, hi - 1) + if f(r[hi - 1]) {
            1int
        } else {
            0int
        }
    }
}

/// Number of cells satisfying `f` in columns `[xlo, xhi)` of rows
/// `[ylo, yhi)` of the grid.
pub open spec fn win_cnt(
    g: Seq<Seq<Cell>>,
    f: spec_fn(Cell) -> bool,
    ylo: int,
    yhi: int,
    xlo: int,
    xhi: int,
) -> int
    decreases yhi - ylo,
{
    if ylo >= yhi {
        0
    } else {
        win_cnt(g, f, ylo, yhi - 1, xlo, xhi) + row_cnt(g[yhi - 1], f, xlo, xhi)
    }
}

/// Number of cells satisfying `f` in a whole `h` by `w` grid.
pub open spec fn grid_cnt(g: Seq<Seq<Cell>>, f: spec_fn(Cell) -> bool, h: int, w: int) -> int {
    win_cnt(g, f, 0, h, 0, w)
}

/// Predicate selecting grains tagged with category `k` in a grain list.
pub open spec fn eq_cat(k: u64) -> spec_fn(CategoryId) -> bool {
    |c: CategoryId| c == CategoryId(k)
}

/// Predicate selecting every grain of a grain list.
pub open spec fn any_cat() -> spec_fn(CategoryId) -> bool {
    |c: CategoryId| true
}

/// A cell predicate `f` and a grain predicate `p` that test the same
/// thing: `f` rejects empty cells and agrees with `p` on grains.
pub open spec fn matches_pred(f: spec_fn(Cell) -> bool, p: spec_fn(CategoryId) -> bool) -> bool {
    &&& !f(None)
    &&& forall|c: CategoryId| f(Some(c)) == #[trigger] p(c)
}

/// Number of entries of `s[lo..hi]` that satisfy `p`.
pub open spec fn seq_cnt_by(s: Seq<CategoryId>, p: spec_fn(CategoryId) -> bool, lo: int, hi: int) -> int
    decreases hi - lo,
{
    if lo >= hi {
        0
    } else {
        seq_cnt_by(s, p, lo, hi - 1) + if p(s[hi - 1]) {
            1int
        } else {
            0int
        }
    }
}

pub proof fn lemma_row_cnt_bounds(r: Seq<Cell>, f: spec_fn(Cell) -> bool, lo: int, hi: int)
    requires
        lo <= hi,
    ensures
        0 <= row_cnt(r, f, lo, hi) <= hi - lo,
    decreases hi - lo,
{
    if lo < hi {
        lemma_row_cnt_bounds(r, f, lo, hi - 1);
    }
}

pub proof fn lemma_row_cnt_split(r: Seq<Cell>, f: spec_fn(Cell) -> bool, lo: int, mid: int, hi: int)
    requires
        lo <= mid <= hi,
    ensures
        row_cnt(r, f, lo, hi) == row_cnt(r, f, lo, mid) + row_cnt(r, f, mid, hi),
    decreases hi - mid,
{
    if mid < hi {
        lemma_row_cnt_split(r, f, lo, mid, hi - 1);
    }
}

/// Two row ranges of equal length whose cells agree under `f`
/// (up to an index shift) have the same count.
pub proof fn lemma_row_cnt_agree(
    r1: Seq<Cell>,
    r2: Seq<Cell>,
    f: spec_fn(Cell) -> bool,
    lo1: int,
    lo2: int,
    n: int,
)
    requires
        forall|j: int| 0 <= j < n ==> f(#[trigger] r1[lo1 + j]) == f(r2[lo2 + j]),
    ensures
        row_cnt(r1, f, lo1, lo1 + n) == row_cnt(r2, f, lo2, lo2 + n),
    decreases n,
{
    if n > 0 {
        lemma_row_cnt_agree(r1, r2, f, lo1, lo2, n - 1);
        assert(f(r1[lo1 + (n - 1)]) == f(r2[lo2 + (n - 1)]));
    }
}

pub proof fn lemma_row_cnt_false(r: Seq<Cell>, f: spec_fn(Cell) -> bool, lo: int, hi: int)
    requires
        forall|j: int| lo <= j < hi ==> !f(#[trigger] r[j]),
    ensures
        row_cnt(r, f, lo, hi) == 0,
    decreases hi - lo,
{
    if lo < hi {
        lemma_row_cnt_false(r, f, lo, hi - 1);
    }
}

/// Changing a single cell of a row range changes its count by the
/// difference the predicate sees at that cell.
pub proof fn lemma_row_cnt_update(
    r1: Seq<Cell>,
    r2: Seq<Cell>,
    f: spec_fn(Cell) -> bool,
    lo: int,
    hi: int,
    i: int,
)
    requires
        lo <= i < hi,
        forall|j: int| lo <= j < hi && j != i ==> f(#[trigger] r1[j]) == f(r2[j]),
    ensures
        row_cnt(r2, f, lo, hi) == row_cnt(r1, f, lo, hi) - (if f(r1[i]) {
            1int
        } else {
            0int
        }) + (if f(r2[i]) {
            1int
        } else {
            0int
        }),
{
    reveal_with_fuel(row_cnt, 2);
    lemma_row_cnt_split(r1, f, lo, i, hi);
    lemma_row_cnt_split(r1, f, i, i + 1, hi);
    lemma_row_cnt_split(r2, f, lo, i, hi);
    lemma_row_cnt_split(r2, f, i, i + 1, hi);
    lemma_row_cnt_agree(r1, r2, f, lo, lo, i - lo);
    lemma_row_cnt_agree(r1, r2, f, i + 1, i + 1, hi - i - 1);
}

pub proof fn lemma_win_cnt_row_split(
    g: Seq<Seq<Cell>>,
    f: spec_fn(Cell) -> bool,
    ylo: int,
    ym: int,
    yhi: int,
    xlo: int,
    xhi: int,
)
    requires
        ylo <= ym <= yhi,
    ensures
        win_cnt(g, f, ylo, yhi, xlo, xhi) == win_cnt(g, f, ylo, ym, xlo, xhi) + win_cnt(
            g,
            f,
            ym,
            yhi,
            xlo,
            xhi,
        ),
    decreases yhi - ym,
{
    if ym < yhi {
        lemma_win_cnt_row_split(g, f, ylo, ym, yhi - 1, xlo, xhi);
    }
}

pub proof fn lemma_win_cnt_col_split(
    g: Seq<Seq<Cell>>,
    f: spec_fn(Cell) -> bool,
    ylo: int,
    yhi: int,
    xlo: int,
    xm: int,
    xhi: int,
)
    requires
        xlo <= xm <= xhi,
    ensures
        win_cnt(g, f, ylo, yhi, xlo, xhi) == win_cnt(g, f, ylo, yhi, xlo, xm) + win_cnt(
            g,
            f,
            ylo,
            yhi,
            xm,
            xhi,
        ),
    decreases yhi - ylo,
{
    if ylo < yhi {
        lemma_win_cnt_col_split(g, f, ylo, yhi - 1, xlo, xm, xhi);
        lemma_row_cnt_split(g[yhi - 1], f, xlo, xm, xhi);
    }
}

/// Two windows of equal shape whose cells agree under `f`
/// (up to a row and column shift) have the same count.
pub proof fn lemma_win_cnt_agree(
    g1: Seq<Seq<Cell>>,
    g2: Seq<Seq<Cell>>,
    f: spec_fn(Cell) -> bool,
    ylo1: int,
    ylo2: int,
    n: int,
    xlo1: int,
    xlo2: int,
    m: int,
)
    requires
        forall|i: int, j: int|
            0 <= i < n && 0 <= j < m ==> f(#[trigger] g1[ylo1 + i][xlo1 + j]) == f(
                g2[ylo2 + i][xlo2 + j],
            ),
    ensures
        win_cnt(g1, f, ylo1, ylo1 + n, xlo1, xlo1 + m) == win_cnt(
            g2,
            f,
            ylo2,
            ylo2 + n,
            xlo2,
            xlo2 + m,
        ),
    decreases n,
{
    if n > 0 {
        lemma_win_cnt_agree(g1, g2, f, ylo1, ylo2, n - 1, xlo1, xlo2, m);
        assert forall|j: int| 0 <= j < m implies f(#[trigger] g1[ylo1 + (n - 1)][xlo1 + j]) == f(
            g2[ylo2 + (n - 1)][xlo2 + j],
        ) by {
            assert(f(g1[ylo1 + (n - 1)][xlo1 + j]) == f(g2[ylo2 + (n - 1)][xlo2 + j]));
        }
        lemma_row_cnt_agree(g1[ylo1 + (n - 1)], g2[ylo2 + (n - 1)], f, xlo1, xlo2, m);
    }
}

pub proof fn lemma_win_cnt_false(
    g: Seq<Seq<Cell>>,
    f: spec_fn(Cell) -> bool,
    ylo: int,
    yhi: int,
    xlo: int,
    xhi: int,
)
    requires
        forall|y: int, x: int| ylo <= y < yhi && xlo <= x < xhi ==> !f(#[trigger] g[y][x]),
    ensures
        win_cnt(g, f, ylo, yhi, xlo, xhi) == 0,
    decreases yhi - ylo,
{
    if ylo < yhi {
        lemma_win_cnt_false(g, f, ylo, yhi - 1, xlo, xhi);
        lemma_row_cnt_false(g[yhi - 1], f, xlo, xhi);
    }
}

pub proof fn lemma_row_cnt_true(r: Seq<Cell>, f: spec_fn(Cell) -> bool, lo: int, hi: int)
    requires
        lo <= hi,
        forall|j: int| lo <= j < hi ==> f(#[trigger] r[j]),
    ensures
        row_cnt(r, f, lo, hi) == hi - lo,
    decreases hi - lo,
{
    if lo < hi {
        lemma_row_cnt_true(r, f, lo, hi - 1);
    }
}

/// A window whose every cell satisfies `f` counts its full area.
pub proof fn lemma_win_cnt_true(
    g: Seq<Seq<Cell>>,
    f: spec_fn(Cell) -> bool,
    ylo: int,
    yhi: int,
    xlo: int,
    xhi: int,
)
    requires
        ylo <= yhi,
        xlo <= xhi,
        forall|y: int, x: int| ylo <= y < yhi && xlo <= x < xhi ==> f(#[trigger] g[y][x]),
    ensures
        win_cnt(g, f, ylo, yhi, xlo, xhi) == (yhi - ylo) * (xhi - xlo),
    decreases yhi - ylo,
{
    if ylo < yhi {
        lemma_win_cnt_true(g, f, ylo, yhi - 1, xlo, xhi);
        lemma_row_cnt_true(g[yhi - 1], f, xlo, xhi);
        assert((yhi - ylo) * (xhi - xlo) == (yhi - 1 - ylo) * (xhi - xlo) + (xhi - xlo))
            by (nonlinear_arith);
    } else {
        assert((yhi - ylo) * (xhi - xlo) == 0) by (nonlinear_arith)
            requires
                yhi == ylo,
        ;
    }
}

pub proof fn lemma_row_cnt_mono(
    r: Seq<Cell>,
    f1: spec_fn(Cell) -> bool,
    f2: spec_fn(Cell) -> bool,
    lo: int,
    hi: int,
)
    requires
        forall|c: Cell| #[trigger] f1(c) ==> f2(c),
    ensures
        row_cnt(r, f1, lo, hi) <= row_cnt(r, f2, lo, hi),
    decreases hi - lo,
{
    if lo < hi {
        lemma_row_cnt_mono(r, f1, f2, lo, hi - 1);
    }
}

/// A weaker predicate never counts more cells than a stronger one.
pub proof fn lemma_win_cnt_mono(
    g: Seq<Seq<Cell>>,
    f1: spec_fn(Cell) -> bool,
    f2: spec_fn(Cell) -> bool,
    ylo: int,
    yhi: int,
    xlo: int,
    xhi: int,
)
    requires
        forall|c: Cell| #[trigger] f1(c) ==> f2(c),
    ensures
        win_cnt(g, f1, ylo, yhi, xlo, xhi) <= win_cnt(g, f2, ylo, yhi, xlo, xhi),
    decreases yhi - ylo,
{
    if ylo < yhi {
        lemma_win_cnt_mono(g, f1, f2, ylo, yhi - 1, xlo, xhi);
        lemma_row_cnt_mono(g[yhi - 1], f1, f2, xlo, xhi);
    }
}

pub proof fn lemma_win_cnt_bounds(
    g: Seq<Seq<Cell>>,
    f: spec_fn(Cell) -> bool,
    ylo: int,
    yhi: int,
    xlo: int,
    xhi: int,
)
    requires
        ylo <= yhi,
        xlo <= xhi,
    ensures
        0 <= win_cnt(g, f, ylo, yhi, xlo, xhi) <= (yhi - ylo) * (xhi - xlo),
    decreases yhi - ylo,
{
    if ylo < yhi {
        lemma_win_cnt_bounds(g, f, ylo, yhi - 1, xlo, xhi);
        lemma_row_cnt_bounds(g[yhi - 1], f, xlo, xhi);
        assert((yhi - ylo) * (xhi - xlo) == (yhi - 1 - ylo) * (xhi - xlo) + (xhi - xlo))
            by (nonlinear_arith);
    }
}

/// Changing a single cell inside a window changes its count by the
/// difference the predicate sees at that cell.
pub proof fn lemma_win_cnt_update(
    g1: Seq<Seq<Cell>>,
    g2: Seq<Seq<Cell>>,
    f: spec_fn(Cell) -> bool,
    ylo: int,
    yhi: int,
    xlo: int,
    xhi: int,
    y: int,
    x: int,
)
    requires
        ylo <= y < yhi,
        xlo <= x < xhi,
        forall|i: int, j: int|
            ylo <= i < yhi && xlo <= j < xhi && !(i == y && j == x) ==> f(#[trigger] g1[i][j]) == f(
                g2[i][j],
            ),
    ensures
        win_cnt(g2, f, ylo, yhi, xlo, xhi) == win_cnt(g1, f, ylo, yhi, xlo, xhi) - (if f(
            g1[y][x],
        ) {
            1int
        } else {
            0int
        }) + (if f(g2[y][x]) {
            1int
        } else {
            0int
        }),
{
    reveal_with_fuel(win_cnt, 2);
    lemma_win_cnt_row_split(g1, f, ylo, y, yhi, xlo, xhi);
    lemma_win_cnt_row_split(g1, f, y, y + 1, yhi, xlo, xhi);
    lemma_win_cnt_row_split(g2, f, ylo, y, yhi, xlo, xhi);
    lemma_win_cnt_row_split(g2, f, y, y + 1, yhi, xlo, xhi);
    assert forall|i: int, j: int| 0 <= i < y - ylo && 0 <= j < xhi - xlo implies f(
        #[trigger] g1[ylo + i][xlo + j],
    ) == f(g2[ylo + i][xlo + j]) by {
        assert(f(g1[ylo + i][xlo + j]) == f(g2[ylo + i][xlo + j]));
    }
    lemma_win_cnt_agree(g1, g2, f, ylo, ylo, y - ylo, xlo, xlo, xhi - xlo);
    assert forall|i: int, j: int| 0 <= i < yhi - y - 1 && 0 <= j < xhi - xlo implies f(
        #[trigger] g1[y + 1 + i][xlo + j],
    ) == f(g2[y + 1 + i][xlo + j]) by {
        assert(f(g1[y + 1 + i][xlo + j]) == f(g2[y + 1 + i][xlo + j]));
    }
    lemma_win_cnt_agree(g1, g2, f, y + 1, y + 1, yhi - y - 1, xlo, xlo, xhi - xlo);
    assert(win_cnt(g1, f, y, y + 1, xlo, xhi) == row_cnt(g1[y], f, xlo, xhi));
    assert(win_cnt(g2, f, y, y + 1, xlo, xhi) == row_cnt(g2[y], f, xlo, xhi));
    lemma_row_cnt_update(g1[y], g2[y], f, xlo, xhi, x);
}

/// The effect of a single-cell change on a window that may or may not
/// contain the changed cell.
pub proof fn lemma_win_cnt_update_at(
    g1: Seq<Seq<Cell>>,
    g2: Seq<Seq<Cell>>,
    f: spec_fn(Cell) -> bool,
    ylo: int,
    yhi: int,
    xlo: int,
    xhi: int,
    y: int,
    x: int,
)
    requires
        ylo <= yhi,
        xlo <= xhi,
        forall|i: int, j: int|
            ylo <= i < yhi && xlo <= j < xhi && !(i == y && j == x) ==> f(#[trigger] g1[i][j]) == f(
                g2[i][j],
            ),
    ensures
        win_cnt(g2, f, ylo, yhi, xlo, xhi) == win_cnt(g1, f, ylo, yhi, xlo, xhi) + (if ylo <= y
            < yhi && xlo <= x < xhi {
            (if f(g2[y][x]) {
                1int
            } else {
                0int
            }) - (if f(g1[y][x]) {
                1int
            } else {
                0int
            })
        } else {
            0int
        }),
{
    if ylo <= y < yhi && xlo <= x < xhi {
        lemma_win_cnt_update(g1, g2, f, ylo, yhi, xlo, xhi, y, x);
    } else {
        assert forall|i: int, j: int| 0 <= i < yhi - ylo && 0 <= j < xhi - xlo implies f(
            #[trigger] g1[ylo + i][xlo + j],
        ) == f(g2[ylo + i][xlo + j]) by {
            assert(f(g1[ylo + i][xlo + j]) == f(g2[ylo + i][xlo + j]));
        }
        lemma_win_cnt_agree(g1, g2, f, ylo, ylo, yhi - ylo, xlo, xlo, xhi - xlo);
    }
}

pub proof fn lemma_seq_cnt_by_bounds(s: Seq<CategoryId>, p: spec_fn(CategoryId) -> bool, lo: int, hi: int)
    requires
        lo <= hi,
    ensures
        0 <= seq_cnt_by(s, p, lo, hi) <= hi - lo,
    decreases hi - lo,
{
    if lo < hi {
        lemma_seq_cnt_by_bounds(s, p, lo, hi - 1);
    }
}

pub proof fn lemma_seq_cnt_by_split(
    s: Seq<CategoryId>,
    p: spec_fn(CategoryId) -> bool,
    lo: int,
    mid: int,
    hi: int,
)
    requires
        lo <= mid <= hi,
    ensures
        seq_cnt_by(s, p, lo, hi) == seq_cnt_by(s, p, lo, mid) + seq_cnt_by(s, p, mid, hi),
    decreases hi - mid,
{
    if mid < hi {
        lemma_seq_cnt_by_split(s, p, lo, mid, hi - 1);
    }
}

/// Two ranges of equal length whose entries agree under `p`
/// (up to an index shift) have the same count.
pub proof fn lemma_seq_cnt_by_agree(
    s1: Seq<CategoryId>,
    s2: Seq<CategoryId>,
    p: spec_fn(CategoryId) -> bool,
    lo1: int,
    lo2: int,
    n: int,
)
    requires
        forall|j: int| 0 <= j < n ==> p(#[trigger] s1[lo1 + j]) == p(s2[lo2 + j]),
    ensures
        seq_cnt_by(s1, p, lo1, lo1 + n) == seq_cnt_by(s2, p, lo2, lo2 + n),
    decreases n,
{
    if n > 0 {
        lemma_seq_cnt_by_agree(s1, s2, p, lo1, lo2, n - 1);
        assert(p(s1[lo1 + (n - 1)]) == p(s2[lo2 + (n - 1)]));
    }
}

/// Appending one grain extends the count by whether `p` accepts it.
pub proof fn lemma_seq_cnt_by_push(s: Seq<CategoryId>, c: CategoryId, p: spec_fn(CategoryId) -> bool)
    ensures
        seq_cnt_by(s.push(c), p, 0, s.len() as int + 1) == seq_cnt_by(s, p, 0, s.len() as int) + (if p(c) {
            1int
        } else {
            0int
        }),
{
    assert forall|j: int| 0 <= j < s.len() implies p(#[trigger] s.push(c)[j]) == p(s[0 + j]) by {
        assert(s.push(c)[j] == s[j]);
    }
    lemma_seq_cnt_by_agree(s.push(c), s, p, 0, 0, s.len() as int);
    assert(s.push(c)[s.len() as int] == c);
}

/// Counting with the trivial predicate gives the range length.
pub proof fn lemma_seq_cnt_by_all(s: Seq<CategoryId>, lo: int, hi: int)
    requires
        lo <= hi,
    ensures
        seq_cnt_by(s, any_cat(), lo, hi) == hi - lo,
    decreases hi - lo,
{
    if lo < hi {
        lemma_seq_cnt_by_all(s, lo, hi - 1);
        assert(any_cat()(s[hi - 1]));
    }
}

/// An all-empty row of `w` cells.
pub fn make_row(w: usize) -> (r: Vec<Cell>)
    ensures
        r@.len() == w,
        forall|x: int| 0 <= x < w ==> r@[x] is None,
{
    let mut r: Vec<Cell> = Vec::new();
    let mut x: usize = 0;
    while x < w
        invariant
            x <= w,
            r@.len() == x,
            forall|i: int| 0 <= i < x ==> r@[i] is None,
        decreases w - x,
    {
        r.push(None);
        x = x + 1;
    }
    r
}

/// An all-empty grid of `h` rows by `w` columns.
pub fn make_grid(h: usize, w: usize) -> (g: Vec<Vec<Cell>>)
    ensures
        grid_wf(grid_view(&g), h as int, w as int),
        forall|y: int, x: int| 0 <= y < h && 0 <= x < w ==> grid_view(&g)[y][x] is None,
{
    let mut g: Vec<Vec<Cell>> = Vec::new();
    let mut y: usize = 0;
    while y < h
        invariant
            y <= h,
            g@.len() == y,
            forall|i: int| 0 <= i < y ==> (#[trigger] g@[i])@.len() == w,
            forall|i: int, x: int| 0 <= i < y && 0 <= x < w ==> g@[i]@[x] is None,
        decreases h - y,
    {
        let row = make_row(w);
        g.push(row);
        y = y + 1;
    }
    g
}

/// What a single-cell write does to a well-formed grid: shape kept,
/// the written cell holds the new value, everything else untouched.
pub proof fn lemma_set_cell_frame(
    gprev: Seq<Seq<Cell>>,
    gnew: Seq<Seq<Cell>>,
    h: int,
    w: int,
    y: int,
    x: int,
    v: Cell,
)
    requires
        grid_wf(gprev, h, w),
        0 <= y < h,
        0 <= x < w,
        gnew == gprev.update(y, gprev[y].update(x, v)),
    ensures
        grid_wf(gnew, h, w),
        gnew[y][x] == v,
        forall|i: int, j: int|
            0 <= i < h && 0 <= j < w && !(i == y && j == x) ==> #[trigger] gnew[i][j]
                == gprev[i][j],
{
    assert forall|i: int| 0 <= i < h implies (#[trigger] gnew[i]).len() == w by {
        if i == y {
            assert(gnew[i] == gprev[y].update(x, v));
        } else {
            assert(gnew[i] == gprev[i]);
        }
    }
    assert forall|i: int, j: int|
        0 <= i < h && 0 <= j < w && !(i == y && j == x) implies #[trigger] gnew[i][j]
        == gprev[i][j] by {
        if i == y {
            assert(gnew[i] == gprev[y].update(x, v));
        } else {
            assert(gnew[i] == gprev[i]);
        }
    }
    assert(gnew[y] == gprev[y].update(x, v));
}

/// Writes one cell of the grid.
pub fn set_cell(g: &mut Vec<Vec<Cell>>, y: usize, x: usize, v: Cell)
    requires
        y < old(g)@.len(),
        x < old(g)@[y as int]@.len(),
    ensures
        grid_view(final(g)) == grid_view(old(g)).update(
            y as int,
            grid_view(old(g))[y as int].update(x as int, v),
        ),
{
    let ghost g0 = grid_view(old(g));
    let row: &mut Vec<Cell> = &mut g[y];
    row[x] = v;
    proof {
        assert(grid_view(g)[y as int] =~= g0[y as int].update(x as int, v));
        assert(grid_view(g) =~= g0.update(y as int, g0[y as int].update(x as int, v)));
    }
}

/// Reads one cell of the grid.
pub fn get_cell(g: &Vec<Vec<Cell>>, y: usize, x: usize) -> (r: Cell)
    requires
        y < g@.len(),
        x < g@[y as int]@.len(),
    ensures
        r == grid_view(g)[y as int][x as int],
{
    g[y][x]
}

/// Counts the occupied cells of a well-formed grid by full scan.
pub fn count_grains(g: &Vec<Vec<Cell>>, w: usize) -> (r: usize)
    requires
        grid_wf(grid_view(g), g@.len() as int, w as int),
        (g@.len() as int) * (w as int) <= usize::MAX as int,
    ensures
        r == grid_cnt(grid_view(g), occ(), g@.len() as int, w as int),
{
    let ghost gv = grid_view(g);
    let h = g.len();
    let mut r: usize = 0;
    let mut y: usize = 0;
    while y < h
        invariant
            grid_wf(gv, h as int, w as int),
            gv == grid_view(g),
            h == g@.len(),
            (h as int) * (w as int) <= usize::MAX as int,
            y <= h,
            r == win_cnt(gv, occ(), 0, y as int, 0, w as int),
            r <= (y as int) * (w as int),
        decreases h - y,
    {
        let ghost r_row_start = r as int;
        let mut x: usize = 0;
        while x < w
            invariant
                grid_wf(gv, h as int, w as int),
                gv == grid_view(g),
                h == g@.len(),
                (h as int) * (w as int) <= usize::MAX as int,
                y < h,
                x <= w,
                r_row_start == win_cnt(gv, occ(), 0, y as int, 0, w as int),
                r_row_start <= (y as int) * (w as int),
                r == r_row_start + row_cnt(gv[y as int], occ(), 0, x as int),
                r <= r_row_start + x,
            decreases w - x,
        {
            proof {
                assert((y as int) * (w as int) + (w as int) <= (h as int) * (w as int))
                    by (nonlinear_arith)
                    requires
                        y < h,
                        0 <= w,
                ;
            }
            if g[y][x].is_some() {
                r = r + 1;
            }
            assert(occ()(gv[y as int][x as int]) == g@[y as int]@[x as int].is_some());
            x = x + 1;
        }
        proof {
            assert(win_cnt(gv, occ(), 0, y as int + 1, 0, w as int) == win_cnt(
                gv,
                occ(),
                0,
                y as int,
                0,
                w as int,
            ) + row_cnt(gv[y as int], occ(), 0, w as int));
            assert((y as int) * (w as int) + (w as int) == ((y as int) + 1) * (w as int))
                by (nonlinear_arith);
        }
        y = y + 1;
    }
    r
}

} // verus!
