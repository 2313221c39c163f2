//! The falling-sand engine: a grid of grains driven by spawning,
//! gravity, resizing and clearing.
//!
//! The engine's invariant ties the `grain_count` field to the exact
//! number of occupied cells, and every operation's contract accounts
//! for how it moves, adds or removes grains.

use vstd::prelude::*;

use crate::domain::CategoryId;
use crate::grid::{
    cat, count_grains, grid_cnt, grid_view, grid_wf, lemma_set_cell_frame, lemma_win_cnt_bounds, lemma_win_cnt_false,
    lemma_win_cnt_update, lemma_win_cnt_update_at, make_grid, occ, set_cell, win_cnt, Cell,
};
use crate::resize::{all_in_window, grid_w, kw_src_end, kw_src_start, min_i, resize_grid};
use crate::rng::{random_coin, random_index_below};

verus! {

/// Sub-cells per terminal glyph, horizontally.
pub const DOT_WIDTH: usize = 2;

/// Sub-cells per terminal glyph, vertically.
pub const DOT_HEIGHT: usize = 4;

/// First codepoint of the Unicode braille block.
pub const BRAILLE_BASE: u32 = 0x2800;

/// The particle grid engine.  `width` and `height` are the most recent
/// viewport size in sub-cell units; the grid itself is `grid[row][col]`
/// with row 0 at the top.
pub struct SandEngine {
    pub grid: Vec<Vec<Cell>>,
    pub width: u16,
    pub height: u16,
    pub frame_count: usize,
    pub grain_count: usize,
}

impl SandEngine {
    /// The mathematical view of the grid.
    pub open spec fn gv(&self) -> Seq<Seq<Cell>> {
        grid_view(&self.grid)
    }

    /// Number of grid rows.
    pub open spec fn rows(&self) -> int {
        self.grid@.len() as int
    }

    /// Number of grid columns.
    pub open spec fn cols(&self) -> int {
        grid_w(&self.grid)
    }

    /// Total number of grains in the grid.
    #[verifier::inline]
    pub open spec fn total(&self) -> int {
        grid_cnt(self.gv(), occ(), self.rows(), self.cols())
    }

    /// Number of grains tagged with category `k`.
    #[verifier::inline]
    pub open spec fn count_of(&self, k: u64) -> int {
        grid_cnt(self.gv(), cat(k), self.rows(), self.cols())
    }

    /// The engine invariant: a rectangular grid whose area fits a
    /// `usize`, with `grain_count` equal to the exact number of
    /// occupied cells.
    pub open spec fn wf(&self) -> bool {
        &&& grid_wf(self.gv(), self.rows(), self.cols())
        &&& self.rows() * self.cols() <= usize::MAX as int
        &&& self.grain_count == self.total()
    }

    /// A fresh engine for a viewport of `width` by `height` terminal
    /// cells: an all-empty grid in sub-cell units.
    pub fn new(width: u16, height: u16) -> (r: Self)
        requires
            (width as int) * (DOT_WIDTH as int) <= u16::MAX as int,
            (height as int) * (DOT_HEIGHT as int) <= u16::MAX as int,
        ensures
            r.wf(),
            r.width as int == (width as int) * (DOT_WIDTH as int),
            r.height as int == (height as int) * (DOT_HEIGHT as int),
            r.frame_count == 0,
            r.grain_count == 0,
            r.rows() == (height as int) * (DOT_HEIGHT as int),
            r.rows() > 0 ==> r.cols() == (width as int) * (DOT_WIDTH as int),
            forall|y: int, x: int|
                0 <= y < r.rows() && 0 <= x < r.cols() ==> (#[trigger] r.gv()[y][x]) is None,
    {
        let mut se = SandEngine {
            grid: Vec::new(),
            width,
            height,
            frame_count: 0,
            grain_count: 0,
        };
        proof {
            assert(se.rows() == 0);
            assert(se.total() == 0);
        }
        se.resize(width, height);
        se
    }

    /// Total cell capacity of the grid; 0 when either dimension is 0.
    fn capacity(&self) -> (r: usize)
        requires
            self.wf(),
        ensures
            r as int == self.rows() * self.cols(),
    {
        if self.grid.is_empty() || self.grid[0].is_empty() {
            proof {
                if self.grid@.len() > 0 {
                    assert(self.gv()[0] == self.grid@[0]@);
                    assert(self.cols() == 0);
                }
                assert(self.rows() * self.cols() == 0) by (nonlinear_arith)
                    requires
                        self.rows() == 0 || self.cols() == 0,
                ;
            }
            0
        } else {
            proof {
                assert(self.gv()[0] == self.grid@[0]@);
            }
            self.grid.len() * self.grid[0].len()
        }
    }

    /// Recomputes the grid for a new viewport size, conserving grains
    /// as the resize engine specifies, settling them with one gravity
    /// pass, and recounting `grain_count` by full scan.
    pub fn resize(&mut self, width: u16, height: u16)
        requires
            old(self).wf(),
            (width as int) * (DOT_WIDTH as int) <= u16::MAX as int,
            (height as int) * (DOT_HEIGHT as int) <= u16::MAX as int,
        ensures
            final(self).wf(),
            final(self).width as int == (width as int) * (DOT_WIDTH as int),
            final(self).height as int == (height as int) * (DOT_HEIGHT as int),
            final(self).frame_count == old(self).frame_count,
            final(self).rows() == (height as int) * (DOT_HEIGHT as int),
            final(self).rows() > 0 ==> final(self).cols() == (width as int) * (DOT_WIDTH as int),
            (old(self).rows() == 0 || old(self).cols() == 0) ==> {
                &&& final(self).grain_count == 0
                &&& forall|y: int, x: int|
                    0 <= y < final(self).rows() && 0 <= x < final(self).cols() ==> (
                    #[trigger] final(self).gv()[y][x]) is None
            },
            ({
                let oh = old(self).rows();
                let ow = old(self).cols();
                let nh = final(self).rows();
                let nw = final(self).cols();
                (oh > 0 && ow > 0) ==> {
                    &&& forall|k: u64|
                        #![trigger cat(k)]
                        final(self).count_of(k) <= old(self).count_of(k)
                    &&& final(self).total() <= old(self).total()
                    &&& (all_in_window(
                        old(self).gv(),
                        oh,
                        ow,
                        kw_src_start(oh, nh),
                        kw_src_end(oh, nh),
                        kw_src_start(ow, nw),
                        kw_src_end(ow, nw),
                    ) ==> {
                        &&& final(self).total() == old(self).total()
                        &&& forall|k: u64|
                            #![trigger cat(k)]
                            final(self).count_of(k) == old(self).count_of(k)
                    })
                }
            }),
            ({
                let oh = old(self).rows();
                let ow = old(self).cols();
                let nh = final(self).rows();
                let nw = final(self).cols();
                (oh > 0 && ow > 0 && nh > 0 && nw > 0 && (nh != oh || nw != ow) && win_cnt(
                    old(self).gv(),
                    occ(),
                    0,
                    oh,
                    0,
                    kw_src_start(ow, nw),
                ) > 0) ==> final(self).gv()[nh - 1][0] is Some
            }),
            final(self).grain_count as int == min_i(
                old(self).total(),
                ((width as int) * (DOT_WIDTH as int)) * ((height as int) * (DOT_HEIGHT as int)),
            ),
            old(self).total() <= ((width as int) * (DOT_WIDTH as int)) * ((height as int) * (
            DOT_HEIGHT as int)) ==> {
                &&& final(self).total() == old(self).total()
                &&& forall|k: u64|
                    #![trigger cat(k)]
                    final(self).count_of(k) == old(self).count_of(k)
            },
            (old(self).rows() > 0 && old(self).cols() > 0 && old(self).rows() == (height as int)
                * (DOT_HEIGHT as int) && old(self).cols() == (width as int) * (DOT_WIDTH as int))
                ==> (final(self).gv() == old(self).gv() && final(self).grain_count
                == old(self).grain_count),
    {
        let dw = DOT_WIDTH as u16;
        let dh = DOT_HEIGHT as u16;
        self.width = width * dw;
        self.height = height * dh;

        let old_h = self.grid.len();
        let old_w = if old_h == 0 {
            0
        } else {
            self.grid[0].len()
        };
        proof {
            if old_h > 0 {
                assert(self.gv()[0] == self.grid@[0]@);
            }
            assert(old_w as int == self.cols());
        }

        let new_w = self.width as usize;
        let new_h = self.height as usize;
        proof {
            assert((new_h as int) * (new_w as int) <= usize::MAX as int) by (nonlinear_arith)
                requires
                    new_h <= 0xFFFF,
                    new_w <= 0xFFFF,
                    usize::MAX as int >= 0xFFFF_FFFF,
            ;
        }

        if old_w == 0 || old_h == 0 {
            self.grid = make_grid(new_h, new_w);
            self.grain_count = 0;
            proof {
                if new_h > 0 {
                    assert(self.gv()[0] == self.grid@[0]@);
                }
                assert forall|y: int, x: int|
                    0 <= y < self.rows() && 0 <= x < self.cols() implies !occ()(
                    #[trigger] self.gv()[y][x],
                ) by {
                    assert(self.gv()[y][x] is None);
                }
                lemma_win_cnt_false(self.gv(), occ(), 0, self.rows(), 0, self.cols());
                lemma_win_cnt_bounds(old(self).gv(), occ(), 0, old(self).rows(), 0, old(self).cols());
                let ohg = old(self).rows();
                let owg = old(self).cols();
                assert(ohg * owg == 0) by (nonlinear_arith)
                    requires
                        ohg == 0 || owg == 0,
                ;
                assert(((width as int) * (DOT_WIDTH as int)) * ((height as int) * (
                DOT_HEIGHT as int)) >= 0) by (nonlinear_arith)
                    requires
                        width >= 0,
                        height >= 0,
                ;
                assert forall|k: u64|
                    #![trigger cat(k)]
                    grid_cnt(self.gv(), cat(k), self.rows(), self.cols()) == grid_cnt(
                        old(self).gv(),
                        cat(k),
                        old(self).rows(),
                        old(self).cols(),
                    ) by {
                    assert forall|y: int, x: int|
                        0 <= y < self.rows() && 0 <= x < self.cols() implies !cat(k)(
                        #[trigger] self.gv()[y][x],
                    ) by {
                        assert(self.gv()[y][x] is None);
                    }
                    lemma_win_cnt_false(self.gv(), cat(k), 0, self.rows(), 0, self.cols());
                    lemma_win_cnt_bounds(
                        old(self).gv(),
                        cat(k),
                        0,
                        old(self).rows(),
                        0,
                        old(self).cols(),
                    );
                }
            }
            return;
        }

        if new_w == old_w && new_h == old_h {
            proof {
                lemma_win_cnt_bounds(self.gv(), occ(), 0, self.rows(), 0, self.cols());
                assert(self.rows() * self.cols() == ((width as int) * (DOT_WIDTH as int)) * ((
                height as int) * (DOT_HEIGHT as int))) by (nonlinear_arith)
                    requires
                        self.rows() == (height as int) * (DOT_HEIGHT as int),
                        self.cols() == (width as int) * (DOT_WIDTH as int),
                ;
            }
            return;
        }

        let new_grid = resize_grid(&self.grid, new_w, new_h, DOT_WIDTH, DOT_HEIGHT);
        let ghost mid = grid_view(&new_grid);
        self.grid = new_grid;
        proof {
            assert(self.rows() == new_h as int);
            if new_h > 0 {
                assert(self.gv()[0] == self.grid@[0]@);
                assert(self.cols() == new_w as int);
            }
        }
        let ghost pre_grav = *self;

        self.apply_gravity();

        let c = count_grains(&self.grid, if new_h == 0 {
            0
        } else {
            new_w
        });
        self.grain_count = c;

        proof {
            let ov = old(self).gv();
            let oh = old(self).rows();
            let ow = old(self).cols();
            let nh = new_h as int;
            let nw = new_w as int;
            assert(self.rows() == nh);
            if new_h > 0 {
                assert(self.gv()[0] == self.grid@[0]@);
                assert(self.cols() == nw);
            } else {
                assert(self.cols() == 0);
            }
            assert forall|k: u64|
                #![trigger cat(k)]
                grid_cnt(self.gv(), cat(k), self.rows(), self.cols()) <= grid_cnt(
                    ov,
                    cat(k),
                    oh,
                    ow,
                ) by {
                assert(grid_cnt(mid, cat(k), nh, nw) <= grid_cnt(ov, cat(k), oh, ow));
                assert(grid_cnt(pre_grav.gv(), cat(k), pre_grav.rows(), pre_grav.cols())
                    == grid_cnt(self.gv(), cat(k), self.rows(), self.cols()));
            }
            if all_in_window(
                ov,
                oh,
                ow,
                kw_src_start(oh, nh),
                kw_src_end(oh, nh),
                kw_src_start(ow, nw),
                kw_src_end(ow, nw),
            ) {
                assert forall|k: u64|
                    #![trigger cat(k)]
                    grid_cnt(self.gv(), cat(k), self.rows(), self.cols()) == grid_cnt(
                        ov,
                        cat(k),
                        oh,
                        ow,
                    ) by {
                    assert(grid_cnt(mid, cat(k), nh, nw) == grid_cnt(ov, cat(k), oh, ow));
                    assert(grid_cnt(pre_grav.gv(), cat(k), pre_grav.rows(), pre_grav.cols())
                        == grid_cnt(self.gv(), cat(k), self.rows(), self.cols()));
                }
            }
            assert(grid_cnt(pre_grav.gv(), occ(), pre_grav.rows(), pre_grav.cols()) == grid_cnt(
                self.gv(),
                occ(),
                self.rows(),
                self.cols(),
            ));
            assert(grid_cnt(mid, occ(), nh, nw) == crate::resize::min_i(
                grid_cnt(ov, occ(), oh, ow),
                nh * nw,
            ));
            assert(nh * nw == ((width as int) * (DOT_WIDTH as int)) * ((height as int) * (
            DOT_HEIGHT as int))) by (nonlinear_arith)
                requires
                    nh == (height as int) * (DOT_HEIGHT as int),
                    nw == (width as int) * (DOT_WIDTH as int),
            ;
            if grid_cnt(ov, occ(), oh, ow) <= nh * nw {
                assert forall|k: u64|
                    #![trigger cat(k)]
                    grid_cnt(self.gv(), cat(k), self.rows(), self.cols()) == grid_cnt(
                        ov,
                        cat(k),
                        oh,
                        ow,
                    ) by {
                    assert(grid_cnt(mid, cat(k), nh, nw) == grid_cnt(ov, cat(k), oh, ow));
                    assert(grid_cnt(pre_grav.gv(), cat(k), pre_grav.rows(), pre_grav.cols())
                        == grid_cnt(self.gv(), cat(k), self.rows(), self.cols()));
                }
            }
        }
    }

    /// One gravity pass: grains fall straight down into an empty cell,
    /// or diagonally toward a randomly chosen side; otherwise they stay.
    /// No grain is created, destroyed or retagged, settled grains in
    /// the bottom row do not move, no grain ever moves upward (every
    /// bottom region of rows keeps at least its grains), and whatever
    /// the random directions, a grain sitting directly above an empty
    /// bottom-row cell leaves that cell occupied.
    pub(crate) fn apply_gravity(&mut self)
        requires
            grid_wf(old(self).gv(), old(self).rows(), old(self).cols()),
        ensures
            grid_wf(final(self).gv(), final(self).rows(), final(self).cols()),
            final(self).rows() == old(self).rows(),
            final(self).cols() == old(self).cols(),
            final(self).width == old(self).width,
            final(self).height == old(self).height,
            final(self).frame_count == old(self).frame_count,
            final(self).grain_count == old(self).grain_count,
            forall|k: u64|
                #![trigger cat(k)]
                final(self).count_of(k) == old(self).count_of(k),
            final(self).total() == old(self).total(),
            forall|x: int|
                0 <= x < old(self).cols() && old(self).gv()[old(self).rows() - 1][x] is Some
                    ==> #[trigger] final(self).gv()[old(self).rows() - 1][x] == old(self).gv()[old(self).rows() - 1][x],
            forall|r: int|
                0 <= r <= old(self).rows() ==> #[trigger] win_cnt(
                    final(self).gv(),
                    occ(),
                    r,
                    old(self).rows(),
                    0,
                    old(self).cols(),
                ) >= win_cnt(old(self).gv(), occ(), r, old(self).rows(), 0, old(self).cols()),
            old(self).rows() >= 2 ==> forall|x: int|
                0 <= x < old(self).cols() && old(self).gv()[old(self).rows() - 2][x] is Some
                    && old(self).gv()[old(self).rows() - 1][x] is None ==> (#[trigger] final(self).gv()[old(self).rows() - 1][x]) is Some,
            forall|y: int, x: int|
                0 <= y < old(self).rows() && 0 <= x < old(self).cols() && (#[trigger] final(self).gv()[y][x]) is Some && old(self).gv()[y][x] is None ==> y >= 1 && (final(self).gv()[y][x]
                    == old(self).gv()[y - 1][x] || (x >= 1 && final(self).gv()[y][x] == old(self).gv()[y - 1][x - 1]) || (x + 1 < old(self).cols() && final(self).gv()[y][x] == old(self).gv()[y - 1][x + 1])),
    {
        let h = self.grid.len();
        if h == 0 {
            return;
        }
        proof {
            assert(self.gv()[0] == self.grid@[0]@);
        }
        let w = self.grid[0].len();
        let ghost g0 = self.gv();
        let ghost rows = self.rows();
        let ghost cols = self.cols();

        let mut yi: usize = h - 1;
        while yi > 0
            invariant
                h == self.grid@.len(),
                h > 0,
                rows == h as int,
                cols == w as int,
                g0 == old(self).gv(),
                grid_wf(g0, rows, cols),
                grid_wf(self.gv(), rows, cols),
                self.width == old(self).width,
                self.height == old(self).height,
                self.frame_count == old(self).frame_count,
                self.grain_count == old(self).grain_count,
                yi <= h - 1,
                forall|k: u64|
                    #![trigger cat(k)]
                    grid_cnt(self.gv(), cat(k), rows, cols) == grid_cnt(g0, cat(k), rows, cols),
                grid_cnt(self.gv(), occ(), rows, cols) == grid_cnt(g0, occ(), rows, cols),
                forall|x: int|
                    0 <= x < cols && g0[rows - 1][x] is Some ==> #[trigger] self.gv()[rows - 1][x]
                        == g0[rows - 1][x],
                forall|r: int|
                    0 <= r <= rows ==> #[trigger] win_cnt(self.gv(), occ(), r, rows, 0, cols)
                        >= win_cnt(g0, occ(), r, rows, 0, cols),
                yi == h - 1 ==> self.gv() == g0,
                yi < h - 1 ==> forall|x2: int|
                    0 <= x2 < cols && g0[rows - 2][x2] is Some && g0[rows - 1][x2] is None ==> (
                    #[trigger] self.gv()[rows - 1][x2]) is Some,
                forall|yy: int, xx: int|
                    0 <= yy < yi && 0 <= xx < cols ==> #[trigger] self.gv()[yy][xx]
                        == g0[yy][xx],
                forall|yy: int, xx: int|
                    0 <= yy < rows && 0 <= xx < cols && (#[trigger] self.gv()[yy][xx]) is Some
                        && g0[yy][xx] is None ==> yy >= 1 && (self.gv()[yy][xx] == g0[yy - 1][xx]
                        || (xx >= 1 && self.gv()[yy][xx] == g0[yy - 1][xx - 1]) || (xx + 1 < cols
                        && self.gv()[yy][xx] == g0[yy - 1][xx + 1])),
            decreases yi,
        {
            let y = yi - 1;
            let mut x: usize = 0;
            while x < w
                invariant
                    h == self.grid@.len(),
                    h > 0,
                    rows == h as int,
                    cols == w as int,
                    g0 == old(self).gv(),
                    grid_wf(g0, rows, cols),
                    grid_wf(self.gv(), rows, cols),
                    self.width == old(self).width,
                    self.height == old(self).height,
                    self.frame_count == old(self).frame_count,
                    self.grain_count == old(self).grain_count,
                    yi <= h - 1,
                    y == yi - 1,
                    x <= w,
                    forall|k: u64|
                        #![trigger cat(k)]
                        grid_cnt(self.gv(), cat(k), rows, cols) == grid_cnt(g0, cat(k), rows, cols),
                    grid_cnt(self.gv(), occ(), rows, cols) == grid_cnt(g0, occ(), rows, cols),
                    forall|xx: int|
                        0 <= xx < cols && g0[rows - 1][xx] is Some ==> #[trigger] self.gv()[rows
                            - 1][xx] == g0[rows - 1][xx],
                    forall|r: int|
                        0 <= r <= rows ==> #[trigger] win_cnt(self.gv(), occ(), r, rows, 0, cols)
                            >= win_cnt(g0, occ(), r, rows, 0, cols),
                    yi == h - 1 ==> forall|x2: int|
                        0 <= x2 < x && g0[rows - 2][x2] is Some && g0[rows - 1][x2] is None ==> (
                        #[trigger] self.gv()[rows - 1][x2]) is Some,
                    yi == h - 1 ==> forall|x2: int|
                        x <= x2 < cols ==> #[trigger] self.gv()[rows - 2][x2] == g0[rows - 2][x2],
                    yi < h - 1 ==> forall|x2: int|
                        0 <= x2 < cols && g0[rows - 2][x2] is Some && g0[rows - 1][x2] is None
                            ==> (#[trigger] self.gv()[rows - 1][x2]) is Some,
                    forall|yy: int, xx: int|
                        0 <= yy < y && 0 <= xx < cols ==> #[trigger] self.gv()[yy][xx]
                            == g0[yy][xx],
                    forall|xx: int|
                        x <= xx < cols ==> #[trigger] self.gv()[y as int][xx] == g0[y as int][xx],
                    forall|yy: int, xx: int|
                        0 <= yy < rows && 0 <= xx < cols && (#[trigger] self.gv()[yy][xx]) is Some
                            && g0[yy][xx] is None ==> yy >= 1 && (self.gv()[yy][xx] == g0[yy
                            - 1][xx] || (xx >= 1 && self.gv()[yy][xx] == g0[yy - 1][xx - 1]) || (xx
                            + 1 < cols && self.gv()[yy][xx] == g0[yy - 1][xx + 1])),
                decreases w - x,
            {
                let ghost gpre = self.gv();
                proof {
                    assert(self.gv()[0] == self.grid@[0]@);
                    assert(grid_w(&self.grid) == cols);
                    assert(self.gv()[y as int] == self.grid@[y as int]@);
                    assert(self.gv()[y as int + 1] == self.grid@[y as int + 1]@);
                }
                if let Some(c) = self.grid[y][x] {
                    if self.grid[y + 1][x].is_none() {
                        move_grain(&mut self.grid, y, x, y + 1, x);
                    } else {
                        let dir_right = random_coin();
                        if dir_right {
                            let nx = x + 1;
                            if nx < w && self.grid[y + 1][nx].is_none() {
                                move_grain(&mut self.grid, y, x, y + 1, nx);
                            }
                        } else {
                            if x > 0 {
                                let nx = x - 1;
                                if self.grid[y + 1][nx].is_none() {
                                    move_grain(&mut self.grid, y, x, y + 1, nx);
                                }
                            }
                        }
                    }
                }
                proof {
                    assert forall|r: int| 0 <= r <= rows implies #[trigger] win_cnt(
                        self.gv(),
                        occ(),
                        r,
                        rows,
                        0,
                        cols,
                    ) >= win_cnt(g0, occ(), r, rows, 0, cols) by {
                        assert(win_cnt(gpre, occ(), r, rows, 0, cols) >= win_cnt(
                            g0,
                            occ(),
                            r,
                            rows,
                            0,
                            cols,
                        ));
                    }
                    assert(gpre[y as int][x as int] == g0[y as int][x as int]);
                    assert forall|yy: int, xx: int|
                        0 <= yy < rows && 0 <= xx < cols && (#[trigger] self.gv()[yy][xx]) is Some
                            && g0[yy][xx] is None implies yy >= 1 && (self.gv()[yy][xx] == g0[yy
                            - 1][xx] || (xx >= 1 && self.gv()[yy][xx] == g0[yy - 1][xx - 1]) || (xx
                            + 1 < cols && self.gv()[yy][xx] == g0[yy - 1][xx + 1])) by {
                        if gpre[yy][xx] is Some && g0[yy][xx] is None {
                            assert(yy >= 1 && (gpre[yy][xx] == g0[yy - 1][xx] || (xx >= 1
                                && gpre[yy][xx] == g0[yy - 1][xx - 1]) || (xx + 1 < cols
                                && gpre[yy][xx] == g0[yy - 1][xx + 1])));
                        }
                    }
                    if yi == h - 1 {
                        assert forall|x2: int|
                            0 <= x2 < x + 1 && g0[rows - 2][x2] is Some && g0[rows - 1][x2]
                                is None implies (#[trigger] self.gv()[rows - 1][x2]) is Some by {
                            if x2 < x {
                                assert(gpre[rows - 1][x2] is Some);
                            } else {
                                assert(gpre[rows - 2][x2] == g0[rows - 2][x2]);
                            }
                        }
                        assert forall|x2: int| x + 1 <= x2 < cols implies #[trigger] self.gv()[rows
                            - 2][x2] == g0[rows - 2][x2] by {
                            assert(gpre[rows - 2][x2] == g0[rows - 2][x2]);
                        }
                    }
                    if yi < h - 1 {
                        assert forall|x2: int|
                            0 <= x2 < cols && g0[rows - 2][x2] is Some && g0[rows - 1][x2] is None
                                implies (#[trigger] self.gv()[rows - 1][x2]) is Some by {
                            assert(gpre[rows - 1][x2] is Some);
                        }
                    }
                }
                x = x + 1;
            }
            yi = yi - 1;
        }
        proof {
            assert(self.gv()[0] == self.grid@[0]@);
            assert(self.cols() == cols);
            assert(self.rows() == rows);
        }
    }
    /// Drops one grain of the given category at a random column of the
    /// top row; if that cell and one random fallback cell are occupied,
    /// the grain is silently lost.  Every outcome either leaves the
    /// grid unchanged or adds exactly one grain of this category to the
    /// top row; the grain can only be lost when some top-row cell is
    /// occupied, so on an entirely empty top row it is always placed.
    pub fn spawn(&mut self, category_id: CategoryId)
        requires
            old(self).wf(),
        ensures
            final(self).wf(),
            final(self).width == old(self).width,
            final(self).height == old(self).height,
            final(self).frame_count == old(self).frame_count,
            final(self).rows() == old(self).rows(),
            final(self).cols() == old(self).cols(),
            forall|y: int, x: int|
                1 <= y < old(self).rows() && 0 <= x < old(self).cols() ==> #[trigger] final(self).gv()[y][x] == old(self).gv()[y][x],
            forall|x: int|
                0 <= x < old(self).cols() && old(self).gv()[0][x] is Some ==> #[trigger] final(self).gv()[0][x] == old(self).gv()[0][x],
            (final(self).gv() == old(self).gv() && final(self).grain_count == old(self).grain_count) || (final(self).grain_count == old(self).grain_count + 1 && final(self).total() == old(self).total() + 1 && final(self).count_of(category_id.0) == old(self).count_of(category_id.0) + 1 && (forall|k: u64|
                #![trigger cat(k)]
                k != category_id.0 ==> final(self).count_of(k) == old(self).count_of(k))),
            (old(self).rows() > 0 && old(self).cols() > 0 && (forall|x: int|
                0 <= x < old(self).cols() ==> (#[trigger] old(self).gv()[0][x]) is None))
                ==> final(self).grain_count == old(self).grain_count + 1,
            (final(self).grain_count == old(self).grain_count && old(self).rows() > 0
                && old(self).cols() > 0) ==> exists|x: int|
                0 <= x < old(self).cols() && (#[trigger] old(self).gv()[0][x]) is Some,
    {
        let cap = self.capacity();
        if cap == 0 {
            proof {
                if old(self).rows() > 0 && old(self).cols() > 0 {
                    let ohg = old(self).rows();
                    let owg = old(self).cols();
                    assert(ohg * owg > 0) by (nonlinear_arith)
                        requires
                            ohg > 0,
                            owg > 0,
                    ;
                }
            }
            return;
        }
        proof {
            assert(self.gv()[0] == self.grid@[0]@);
        }
        let w = self.grid[0].len();
        proof {
            assert(self.rows() * self.cols() > 0);
            assert(w > 0) by (nonlinear_arith)
                requires
                    (self.rows()) * (self.cols()) > 0,
                    self.cols() == w as int,
            ;
        }

        let x = random_index_below(w);
        if self.grid[0][x].is_none() {
            self.place_top_grain(x, category_id);
        } else {
            let fallback_x = random_index_below(w);
            if self.grid[0][fallback_x].is_none() {
                self.place_top_grain(fallback_x, category_id);
            }
        }
    }

    /// Places one grain in the (empty) top-row cell `x` and counts it.
    fn place_top_grain(&mut self, x: usize, category_id: CategoryId)
        requires
            old(self).wf(),
            old(self).rows() > 0,
            0 <= x < old(self).cols(),
            old(self).gv()[0][x as int] is None,
        ensures
            final(self).wf(),
            final(self).width == old(self).width,
            final(self).height == old(self).height,
            final(self).frame_count == old(self).frame_count,
            final(self).rows() == old(self).rows(),
            final(self).cols() == old(self).cols(),
            final(self).gv() == old(self).gv().update(
                0,
                old(self).gv()[0].update(x as int, Some(category_id)),
            ),
            forall|y: int, x2: int|
                1 <= y < old(self).rows() && 0 <= x2 < old(self).cols() ==> #[trigger] final(self).gv()[y][x2] == old(self).gv()[y][x2],
            forall|x2: int|
                0 <= x2 < old(self).cols() && old(self).gv()[0][x2] is Some ==> #[trigger] final(self).gv()[0][x2] == old(self).gv()[0][x2],
            final(self).grain_count == old(self).grain_count + 1,
            final(self).total() == old(self).total() + 1,
            final(self).count_of(category_id.0) == old(self).count_of(category_id.0) + 1,
            forall|k: u64|
                #![trigger cat(k)]
                k != category_id.0 ==> final(self).count_of(k) == old(self).count_of(k),
    {
        let ghost g0 = self.gv();
        let ghost rows = self.rows();
        let ghost cols = self.cols();
        proof {
            assert(self.gv()[0] == self.grid@[0]@);
            lemma_cnt_lt_area(g0, rows, cols, 0, x as int);
        }
        set_cell(&mut self.grid, 0, x, Some(category_id));
        self.grain_count = self.grain_count + 1;
        proof {
            let g1 = self.gv();
            lemma_set_cell_frame(g0, g1, rows, cols, 0, x as int, Some(category_id));
            assert(g1.len() == self.grid@.len());
            assert(g1[0] == self.grid@[0]@);
            assert(self.cols() == cols);
            assert(self.rows() == rows);
            assert forall|y: int, x2: int|
                1 <= y < rows && 0 <= x2 < cols implies #[trigger] g1[y][x2] == g0[y][x2] by {
                assert(g1[y] == g0[y]);
            }
            lemma_win_cnt_update(g0, g1, occ(), 0, rows, 0, cols, 0, x as int);
            assert forall|k: u64|
                #![trigger cat(k)]
                grid_cnt(g1, cat(k), rows, cols) == grid_cnt(g0, cat(k), rows, cols) + (if k
                    == category_id.0 {
                    1int
                } else {
                    0int
                }) by {
                lemma_win_cnt_update(g0, g1, cat(k), 0, rows, 0, cols, 0, x as int);
            }
        }
    }

    /// Advances the frame counter and runs a gravity pass on every
    /// other call, halving the visible fall rate.
    pub fn update(&mut self)
        requires
            old(self).wf(),
            old(self).frame_count < usize::MAX,
        ensures
            final(self).wf(),
            final(self).width == old(self).width,
            final(self).height == old(self).height,
            final(self).frame_count == old(self).frame_count + 1,
            final(self).grain_count == old(self).grain_count,
            final(self).rows() == old(self).rows(),
            final(self).cols() == old(self).cols(),
            final(self).total() == old(self).total(),
            forall|k: u64|
                #![trigger cat(k)]
                final(self).count_of(k) == old(self).count_of(k),
            (old(self).frame_count + 1) % 2 == 1 ==> final(self).gv() == old(self).gv(),
            forall|x: int|
                0 <= x < old(self).cols() && old(self).gv()[old(self).rows() - 1][x] is Some
                    ==> #[trigger] final(self).gv()[old(self).rows() - 1][x] == old(
                    self,
                ).gv()[old(self).rows() - 1][x],
            forall|r: int|
                0 <= r <= old(self).rows() ==> #[trigger] win_cnt(
                    final(self).gv(),
                    occ(),
                    r,
                    old(self).rows(),
                    0,
                    old(self).cols(),
                ) >= win_cnt(old(self).gv(), occ(), r, old(self).rows(), 0, old(self).cols()),
            ((old(self).frame_count + 1) % 2 == 0 && old(self).rows() >= 2) ==> forall|x: int|
                0 <= x < old(self).cols() && old(self).gv()[old(self).rows() - 2][x] is Some
                    && old(self).gv()[old(self).rows() - 1][x] is None ==> (#[trigger] final(self).gv()[old(self).rows() - 1][x]) is Some,
            forall|y: int, x: int|
                0 <= y < old(self).rows() && 0 <= x < old(self).cols() && (#[trigger] final(self).gv()[y][x]) is Some && old(self).gv()[y][x] is None ==> y >= 1 && (final(self).gv()[y][x]
                    == old(self).gv()[y - 1][x] || (x >= 1 && final(self).gv()[y][x] == old(self).gv()[y - 1][x - 1]) || (x + 1 < old(self).cols() && final(self).gv()[y][x] == old(self).gv()[y - 1][x + 1])),
    {
        self.frame_count = self.frame_count + 1;
        if self.frame_count % 2 == 0 {
            self.apply_gravity();
        }
    }

    /// Empties every cell and resets the grain count.
    pub fn clear(&mut self)
        requires
            old(self).wf(),
        ensures
            final(self).wf(),
            final(self).width == old(self).width,
            final(self).height == old(self).height,
            final(self).frame_count == old(self).frame_count,
            final(self).rows() == old(self).rows(),
            final(self).cols() == old(self).cols(),
            final(self).grain_count == 0,
            forall|y: int, x: int|
                0 <= y < final(self).rows() && 0 <= x < final(self).cols() ==> (#[trigger] final(self).gv()[y][x]) is None,
    {
        let ghost rows = self.rows();
        let ghost cols = self.cols();
        let h = self.grid.len();
        let mut y: usize = 0;
        while y < h
            invariant
                h == self.grid@.len(),
                rows == h as int,
                grid_wf(self.gv(), rows, cols),
                self.width == old(self).width,
                self.height == old(self).height,
                self.frame_count == old(self).frame_count,
                y <= h,
                forall|yy: int, xx: int|
                    0 <= yy < y && 0 <= xx < cols ==> (#[trigger] self.gv()[yy][xx]) is None,
            decreases h - y,
        {
            let ghost gprev = self.gv();
            proof {
                assert(self.gv()[y as int] == self.grid@[y as int]@);
            }
            let w = self.grid[y].len();
            let mut x: usize = 0;
            while x < w
                invariant
                    h == self.grid@.len(),
                    rows == h as int,
                    grid_wf(self.gv(), rows, cols),
                    self.width == old(self).width,
                    self.height == old(self).height,
                    self.frame_count == old(self).frame_count,
                    y < h,
                    w as int == cols,
                    x <= w,
                    forall|yy: int, xx: int|
                        0 <= yy < y && 0 <= xx < cols ==> (#[trigger] self.gv()[yy][xx]) is None,
                    forall|xx: int| 0 <= xx < x ==> (#[trigger] self.gv()[y as int][xx]) is None,
                decreases w - x,
            {
                let ghost gp = self.gv();
                proof {
                    assert(self.gv()[y as int] == self.grid@[y as int]@);
                }
                set_cell(&mut self.grid, y, x, None);
                proof {
                    lemma_set_cell_frame(gp, self.gv(), rows, cols, y as int, x as int, None);
                }
                x = x + 1;
            }
            y = y + 1;
        }
        self.grain_count = 0;
        proof {
            if h > 0 {
                assert(self.gv()[0] == self.grid@[0]@);
            }
            assert(self.cols() == cols);
            assert forall|y2: int, x2: int|
                0 <= y2 < rows && 0 <= x2 < cols implies !occ()(#[trigger] self.gv()[y2][x2]) by {
                assert(self.gv()[y2][x2] is None);
            }
            lemma_win_cnt_false(self.gv(), occ(), 0, rows, 0, cols);
        }
    }

    /// Removes every grain of one category, leaving all other grains in
    /// place, and recounts.
    pub fn clear_category(&mut self, category_id: CategoryId)
        requires
            old(self).wf(),
        ensures
            final(self).wf(),
            final(self).width == old(self).width,
            final(self).height == old(self).height,
            final(self).frame_count == old(self).frame_count,
            final(self).rows() == old(self).rows(),
            final(self).cols() == old(self).cols(),
            forall|y: int, x: int|
                0 <= y < old(self).rows() && 0 <= x < old(self).cols() ==> #[trigger] final(self).gv()[y][x] == (if old(self).gv()[y][x] == Some(category_id) {
                    None
                } else {
                    old(self).gv()[y][x]
                }),
            final(self).count_of(category_id.0) == 0,
            forall|k: u64|
                #![trigger cat(k)]
                k != category_id.0 ==> final(self).count_of(k) == old(self).count_of(k),
    {
        let ghost g0 = self.gv();
        let ghost rows = self.rows();
        let ghost cols = self.cols();
        let h = self.grid.len();
        let mut y: usize = 0;
        while y < h
            invariant
                h == self.grid@.len(),
                rows == h as int,
                g0 == old(self).gv(),
                grid_wf(g0, rows, cols),
                grid_wf(self.gv(), rows, cols),
                self.width == old(self).width,
                self.height == old(self).height,
                self.frame_count == old(self).frame_count,
                y <= h,
                forall|yy: int, xx: int|
                    0 <= yy < y && 0 <= xx < cols ==> #[trigger] self.gv()[yy][xx] == (if g0[yy][xx]
                        == Some(category_id) {
                        None
                    } else {
                        g0[yy][xx]
                    }),
                forall|yy: int, xx: int|
                    y <= yy < rows && 0 <= xx < cols ==> #[trigger] self.gv()[yy][xx]
                        == g0[yy][xx],
            decreases h - y,
        {
            proof {
                assert(self.gv()[y as int] == self.grid@[y as int]@);
            }
            let w = self.grid[y].len();
            let mut x: usize = 0;
            while x < w
                invariant
                    h == self.grid@.len(),
                    rows == h as int,
                    g0 == old(self).gv(),
                    grid_wf(g0, rows, cols),
                    grid_wf(self.gv(), rows, cols),
                    self.width == old(self).width,
                    self.height == old(self).height,
                    self.frame_count == old(self).frame_count,
                    y < h,
                    w as int == cols,
                    x <= w,
                    forall|yy: int, xx: int|
                        0 <= yy < y && 0 <= xx < cols ==> #[trigger] self.gv()[yy][xx] == (if
                            g0[yy][xx] == Some(category_id) {
                            None
                        } else {
                            g0[yy][xx]
                        }),
                    forall|xx: int|
                        0 <= xx < x ==> #[trigger] self.gv()[y as int][xx] == (if g0[y as int][xx]
                            == Some(category_id) {
                            None
                        } else {
                            g0[y as int][xx]
                        }),
                    forall|xx: int|
                        x <= xx < cols ==> #[trigger] self.gv()[y as int][xx] == g0[y as int][xx],
                    forall|yy: int, xx: int|
                        y < yy < rows && 0 <= xx < cols ==> #[trigger] self.gv()[yy][xx]
                            == g0[yy][xx],
                decreases w - x,
            {
                proof {
                    assert(self.gv()[y as int] == self.grid@[y as int]@);
                }
                let ghost gp = self.gv();
                let keep = match self.grid[y][x] {
                    Some(c) => c.0 != category_id.0,
                    None => true,
                };
                if !keep {
                    set_cell(&mut self.grid, y, x, None);
                    proof {
                        lemma_set_cell_frame(gp, self.gv(), rows, cols, y as int, x as int, None);
                    }
                }
                x = x + 1;
            }
            y = y + 1;
        }
        proof {
            if h > 0 {
                assert(self.gv()[0] == self.grid@[0]@);
            }
            assert(self.cols() == cols);
        }
        let c = count_grains(&self.grid, if h == 0 {
            0
        } else {
            self.grid[0].len()
        });
        self.grain_count = c;
        proof {
            let g1 = self.gv();
            assert forall|y2: int, x2: int|
                0 <= y2 < rows && 0 <= x2 < cols implies !cat(category_id.0)(
                #[trigger] g1[y2][x2],
            ) by {
                assert(g1[y2][x2] != Some(category_id));
            }
            lemma_win_cnt_false(g1, cat(category_id.0), 0, rows, 0, cols);
            assert forall|k: u64|
                #![trigger cat(k)]
                k != category_id.0 implies grid_cnt(g1, cat(k), rows, cols) == grid_cnt(
                g0,
                cat(k),
                rows,
                cols,
            ) by {
                assert forall|i: int, j: int| 0 <= i < rows && 0 <= j < cols implies cat(k)(
                    #[trigger] g1[0 + i][0 + j],
                ) == cat(k)(g0[0 + i][0 + j]) by {
                    assert(g1[i][j] == (if g0[i][j] == Some(category_id) {
                        None
                    } else {
                        g0[i][j]
                    }));
                }
                crate::grid::lemma_win_cnt_agree(g1, g0, cat(k), 0, 0, rows, 0, 0, cols);
            }
        }
    }

    /// Reads one cell of the grid.
    pub fn grain_at(&self, y: usize, x: usize) -> (r: Option<CategoryId>)
        requires
            self.wf(),
            y < self.rows(),
            x < self.cols(),
        ensures
            r == self.gv()[y as int][x as int],
    {
        proof {
            assert(self.gv()[y as int] == self.grid@[y as int]@);
        }
        self.grid[y][x]
    }

    /// Puts a grain of the given category into one cell, replacing
    /// whatever was there, and keeps the grain count exact.
    pub fn place_grain(&mut self, y: usize, x: usize, category_id: CategoryId)
        requires
            old(self).wf(),
            y < old(self).rows(),
            x < old(self).cols(),
        ensures
            final(self).wf(),
            final(self).width == old(self).width,
            final(self).height == old(self).height,
            final(self).frame_count == old(self).frame_count,
            final(self).rows() == old(self).rows(),
            final(self).cols() == old(self).cols(),
            final(self).gv()[y as int][x as int] == Some(category_id),
            forall|y2: int, x2: int|
                0 <= y2 < old(self).rows() && 0 <= x2 < old(self).cols() && !(y2 == y && x2 == x)
                    ==> #[trigger] final(self).gv()[y2][x2] == old(self).gv()[y2][x2],
            final(self).total() == old(self).total() + (if old(self).gv()[y as int][x as int]
                is Some {
                0int
            } else {
                1int
            }),
    {
        let ghost g0 = self.gv();
        let ghost rows = self.rows();
        let ghost cols = self.cols();
        proof {
            assert(self.gv()[y as int] == self.grid@[y as int]@);
        }
        let was = self.grid[y][x];
        if was.is_none() {
            proof {
                lemma_cnt_lt_area(g0, rows, cols, y as int, x as int);
            }
        }
        set_cell(&mut self.grid, y, x, Some(category_id));
        match was {
            Some(_) => (),
            None => {
                self.grain_count = self.grain_count + 1;
            },
        }
        proof {
            let g1 = self.gv();
            lemma_set_cell_frame(g0, g1, rows, cols, y as int, x as int, Some(category_id));
            assert(g1.len() == self.grid@.len());
            assert(g1[0] == self.grid@[0]@);
            assert(self.cols() == cols);
            assert(self.rows() == rows);
            lemma_win_cnt_update(g0, g1, occ(), 0, rows, 0, cols, y as int, x as int);
        }
    }

}

/// A grid with at least one empty cell holds fewer grains than it has
/// cells.
proof fn lemma_cnt_lt_area(g: Seq<Seq<Cell>>, h: int, w: int, y: int, x: int)
    requires
        grid_wf(g, h, w),
        0 <= y < h,
        0 <= x < w,
        g[y][x] is None,
    ensures
        grid_cnt(g, occ(), h, w) < h * w,
{
    let g2 = g.update(y, g[y].update(x, Some(CategoryId(0))));
    assert forall|i: int, j: int|
        0 <= i < h && 0 <= j < w && !(i == y && j == x) implies occ()(#[trigger] g2[i][j]) == occ()(
        g[i][j],
    ) by {
        if i == y {
            assert(g2[i] == g[y].update(x, Some(CategoryId(0))));
        } else {
            assert(g2[i] == g[i]);
        }
    }
    lemma_win_cnt_update(g, g2, occ(), 0, h, 0, w, y, x);
    assert(g2[y][x] == Some(CategoryId(0)));
    lemma_win_cnt_bounds(g2, occ(), 0, h, 0, w);
    assert(h * w == (h - 0) * (w - 0));
}

/// Moves one grain from an occupied source cell to an empty destination
/// cell, preserving its category and every grain count.
fn move_grain(g: &mut Vec<Vec<Cell>>, sy: usize, sx: usize, dy: usize, dx: usize)
    requires
        grid_wf(grid_view(old(g)), old(g)@.len() as int, grid_w(old(g))),
        sy < old(g)@.len(),
        dy < old(g)@.len(),
        (sx as int) < grid_w(old(g)),
        (dx as int) < grid_w(old(g)),
        !(sy == dy && sx == dx),
        grid_view(old(g))[sy as int][sx as int] is Some,
        grid_view(old(g))[dy as int][dx as int] is None,
    ensures
        ({
            let g0 = grid_view(old(g));
            let g1 = grid_view(final(g));
            let h = old(g)@.len() as int;
            let w = grid_w(old(g));
            &&& grid_wf(g1, h, w)
            &&& g1[dy as int][dx as int] == g0[sy as int][sx as int]
            &&& g1[sy as int][sx as int] is None
            &&& forall|y: int, x: int|
                0 <= y < h && 0 <= x < w && !(y == sy && x == sx) && !(y == dy && x == dx)
                    ==> #[trigger] g1[y][x] == g0[y][x]
            &&& forall|k: u64|
                #![trigger cat(k)]
                grid_cnt(g1, cat(k), h, w) == grid_cnt(g0, cat(k), h, w)
            &&& grid_cnt(g1, occ(), h, w) == grid_cnt(g0, occ(), h, w)
            &&& forall|r: int|
                0 <= r <= h ==> #[trigger] win_cnt(g1, occ(), r, h, 0, w) == win_cnt(
                    g0,
                    occ(),
                    r,
                    h,
                    0,
                    w,
                ) + (if sy < r && r <= dy {
                    1int
                } else if dy < r && r <= sy {
                    (-1) as int
                } else {
                    0int
                })
        }),
{
    let ghost g0 = grid_view(old(g));
    let ghost h = old(g)@.len() as int;
    let ghost w = grid_w(old(g));
    proof {
        assert(grid_view(g)[sy as int] == g@[sy as int]@);
        assert(grid_view(g)[dy as int] == g@[dy as int]@);
    }
    let c = g[sy][sx];
    set_cell(g, dy, dx, c);
    let ghost gm = grid_view(g);
    proof {
        assert(grid_view(g).len() == g@.len());
        assert(gm.len() == h);
        assert(g@.len() as int == h);
        assert(gm[sy as int] == g@[sy as int]@);
    }
    set_cell(g, sy, sx, None);
    let ghost g1 = grid_view(g);
    proof {
        assert forall|y: int, x: int|
            0 <= y < h && 0 <= x < w && !(y == sy && x == sx) && !(y == dy && x == dx)
                implies #[trigger] g1[y][x] == g0[y][x] by {
            assert(gm[y] == if y == dy {
                g0[dy as int].update(dx as int, c)
            } else {
                g0[y]
            });
            assert(g1[y] == if y == sy {
                gm[sy as int].update(sx as int, None)
            } else {
                gm[y]
            });
        }
        assert(g1[dy as int][dx as int] == g0[sy as int][sx as int]);
        assert(g1[sy as int][sx as int] is None);
        assert forall|k: u64|
            #![trigger cat(k)]
            grid_cnt(g1, cat(k), h, w) == grid_cnt(g0, cat(k), h, w) by {
            lemma_win_cnt_update(g0, gm, cat(k), 0, h, 0, w, dy as int, dx as int);
            lemma_win_cnt_update(gm, g1, cat(k), 0, h, 0, w, sy as int, sx as int);
            assert(gm[sy as int][sx as int] == g0[sy as int][sx as int]);
        }
        lemma_win_cnt_update(g0, gm, occ(), 0, h, 0, w, dy as int, dx as int);
        lemma_win_cnt_update(gm, g1, occ(), 0, h, 0, w, sy as int, sx as int);
        assert(gm[sy as int][sx as int] == g0[sy as int][sx as int]);
        assert forall|r: int| 0 <= r <= h implies #[trigger] win_cnt(g1, occ(), r, h, 0, w)
            == win_cnt(g0, occ(), r, h, 0, w) + (if sy < r && r <= dy {
            1int
        } else if dy < r && r <= sy {
            (-1) as int
        } else {
            0int
        }) by {
            assert forall|i: int, j: int|
                r <= i < h && 0 <= j < w && !(i == dy && j == dx) implies occ()(
                #[trigger] g0[i][j],
            ) == occ()(gm[i][j]) by {
                assert(gm[i][j] == g0[i][j]);
            }
            lemma_win_cnt_update_at(g0, gm, occ(), r, h, 0, w, dy as int, dx as int);
            assert forall|i: int, j: int|
                r <= i < h && 0 <= j < w && !(i == sy && j == sx) implies occ()(
                #[trigger] gm[i][j],
            ) == occ()(g1[i][j]) by {
                assert(g1[i][j] == gm[i][j]);
            }
            lemma_win_cnt_update_at(gm, g1, occ(), r, h, 0, w, sy as int, sx as int);
            assert(gm[dy as int][dx as int] == g0[sy as int][sx as int]);
        }
    }
}

} // verus!
