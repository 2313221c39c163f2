//! The state codec: converting the live grid to and from a sparse,
//! versioned snapshot.
//!
//! A snapshot stores the grid size and one `(x, y, category_id)` triple
//! per occupied cell.  Restoring rebuilds a grid of the snapshot's own
//! size, remaps category ids that are no longer valid to the "none"
//! category 0, and, when the live grid has a different size, runs the
//! result through the resize engine.

use std::collections::HashSet;

use vstd::prelude::*;

use crate::domain::CategoryId;
use crate::engine::{SandEngine, DOT_HEIGHT, DOT_WIDTH};
use crate::grid::{
    count_grains, grid_cnt, grid_view, grid_wf, lemma_set_cell_frame, lemma_win_cnt_update,
    make_grid, occ, row_cnt, set_cell, win_cnt,
};
use crate::resize::{all_in_window, grid_w, resize_grid};

verus! {

/// Version tag of the snapshot schema.
pub const SAND_STATE_VERSION: u8 = 1;

/// One grain of a snapshot: its column, row and category id.
#[derive(Debug, Clone, Copy, PartialEq, Eq, Structural)]
pub struct SandStateGrain {
    pub x: usize,
    pub y: usize,
    pub category_id: u64,
}

/// A sparse snapshot of the grid: its size and one entry per grain.
#[derive(Debug, Clone, PartialEq, Eq)]
pub struct SandState {
    pub version: u8,
    pub grid_width: usize,
    pub grid_height: usize,
    pub grains: Vec<SandStateGrain>,
}

/// No two snapshot grains share a cell.
pub open spec fn grains_distinct(gs: Seq<SandStateGrain>) -> bool {
    forall|i: int, j: int|
        0 <= i < gs.len() && 0 <= j < gs.len() && i != j ==> !((#[trigger] gs[i]).x == (
        #[trigger] gs[j]).x && gs[i].y == gs[j].y)
}

/// Every snapshot grain lies inside a `w` by `h` grid.
pub open spec fn grains_in_range(gs: Seq<SandStateGrain>, w: int, h: int) -> bool {
    forall|i: int| 0 <= i < gs.len() ==> (#[trigger] gs[i]).x < w && gs[i].y < h
}

/// Whether some snapshot grain sits at column `x`, row `y`.
pub open spec fn has_grain_at(gs: Seq<SandStateGrain>, x: int, y: int) -> bool {
    exists|i: int| 0 <= i < gs.len() && (#[trigger] gs[i]).x == x && gs[i].y == y
}

/// A category id passed through the valid-id filter: itself when
/// valid, the "none" id 0 otherwise.
pub open spec fn sanitized(k: u64, valid: Set<u64>) -> u64 {
    if valid.contains(k) {
        k
    } else {
        0
    }
}

/// The grain list is in row-major order: rows top to bottom, columns
/// left to right within a row.
pub open spec fn grains_row_major(gs: Seq<SandStateGrain>) -> bool {
    forall|i: int, j: int|
        0 <= i < j < gs.len() ==> ((#[trigger] gs[i]).y < (#[trigger] gs[j]).y || (gs[i].y
            == gs[j].y && gs[i].x < gs[j].x))
}

/// How many of the first `n` snapshot grains lie inside a `w` by `h`
/// grid.
pub open spec fn in_range_count(gs: Seq<SandStateGrain>, w: int, h: int, n: int) -> int
    decreases n,
{
    if n <= 0 {
        0
    } else {
        in_range_count(gs, w, h, n - 1) + if gs[n - 1].x < w && gs[n - 1].y < h {
            1int
        } else {
            0int
        }
    }
}

impl SandEngine {
    /// Captures the grid as a sparse snapshot, scanning rows top to
    /// bottom and columns left to right.
    pub fn snapshot_state(&self) -> (r: SandState)
        requires
            self.wf(),
        ensures
            r.version == SAND_STATE_VERSION,
            r.grid_height == self.rows(),
            r.grid_width == self.cols(),
            grains_distinct(r.grains@),
            grains_row_major(r.grains@),
            grains_in_range(r.grains@, self.cols(), self.rows()),
            forall|i: int|
                0 <= i < r.grains@.len() ==> self.gv()[(#[trigger] r.grains@[i]).y as int][r.grains@[i].x as int]
                    == Some(CategoryId(r.grains@[i].category_id)),
            forall|y: int, x: int|
                0 <= y < self.rows() && 0 <= x < self.cols() && (#[trigger] self.gv()[y][x])
                    is Some ==> has_grain_at(r.grains@, x, y),
            r.grains@.len() == self.total(),
    {
        let ghost gv = self.gv();
        let ghost rows = self.rows();
        let ghost cols = self.cols();
        let grid_height = self.grid.len();
        let grid_width = if grid_height == 0 {
            0
        } else {
            self.grid[0].len()
        };
        proof {
            if grid_height > 0 {
                assert(self.gv()[0] == self.grid@[0]@);
            }
            assert(grid_width as int == cols);
        }

        let mut grains: Vec<SandStateGrain> = Vec::new();
        let mut y: usize = 0;
        while y < grid_height
            invariant
                self.wf(),
                gv == self.gv(),
                rows == self.rows(),
                cols == self.cols(),
                grid_height == self.grid@.len(),
                grid_width as int == cols,
                y <= grid_height,
                forall|i: int|
                    0 <= i < grains@.len() ==> ((#[trigger] grains@[i]).y as int) < y
                        && (grains@[i].x as int) < cols,
                forall|i: int|
                    0 <= i < grains@.len() ==> gv[(#[trigger] grains@[i]).y as int][grains@[i].x as int]
                        == Some(CategoryId(grains@[i].category_id)),
                forall|yy: int, xx: int|
                    0 <= yy < y && 0 <= xx < cols && (#[trigger] gv[yy][xx]) is Some
                        ==> has_grain_at(grains@, xx, yy),
                grains_distinct(grains@),
                grains_row_major(grains@),
                grains@.len() == win_cnt(gv, occ(), 0, y as int, 0, cols),
            decreases grid_height - y,
        {
            proof {
                assert(self.gv()[y as int] == self.grid@[y as int]@);
            }
            let mut x: usize = 0;
            while x < grid_width
                invariant
                    self.wf(),
                    gv == self.gv(),
                    rows == self.rows(),
                    cols == self.cols(),
                    grid_height == self.grid@.len(),
                    grid_width as int == cols,
                    y < grid_height,
                    x <= grid_width,
                    forall|i: int|
                        0 <= i < grains@.len() ==> (((#[trigger] grains@[i]).y as int) < y || (
                        (grains@[i].y as int) == y && (grains@[i].x as int) < x)) && (
                        grains@[i].x as int) < cols,
                    forall|i: int|
                        0 <= i < grains@.len() ==> gv[(#[trigger] grains@[i]).y as int][grains@[i].x as int]
                            == Some(CategoryId(grains@[i].category_id)),
                    forall|yy: int, xx: int|
                        0 <= yy < y && 0 <= xx < cols && (#[trigger] gv[yy][xx]) is Some
                            ==> has_grain_at(grains@, xx, yy),
                    forall|xx: int|
                        0 <= xx < x && (#[trigger] gv[y as int][xx]) is Some ==> has_grain_at(
                            grains@,
                            xx,
                            y as int,
                        ),
                    grains_distinct(grains@),
                    grains_row_major(grains@),
                    grains@.len() == win_cnt(gv, occ(), 0, y as int, 0, cols) + row_cnt(
                        gv[y as int],
                        occ(),
                        0,
                        x as int,
                    ),
                decreases grid_width - x,
            {
                let ghost gs0 = grains@;
                if let Some(c) = self.grid[y][x] {
                    grains.push(
                        SandStateGrain { x, y, category_id: c.0 },
                    );
                    proof {
                        let gs1 = grains@;
                        let n = gs0.len() as int;
                        assert(gs1 == gs0.push(SandStateGrain { x, y, category_id: c.0 }));
                        assert forall|i: int| 0 <= i < n implies #[trigger] gs1[i] == gs0[i] by {}
                        assert(gs1[n] == SandStateGrain { x, y, category_id: c.0 });
                        assert(c == CategoryId(c.0));
                        assert forall|yy: int, xx: int|
                            0 <= yy < y as int && 0 <= xx < cols && (#[trigger] gv[yy][xx]) is Some
                                implies has_grain_at(gs1, xx, yy) by {
                            let i0 = choose|i: int|
                                0 <= i < gs0.len() && (#[trigger] gs0[i]).x == xx && gs0[i].y == yy;
                            assert(gs1[i0].x == xx && gs1[i0].y == yy);
                        }
                        assert forall|xx: int|
                            0 <= xx <= x as int && (#[trigger] gv[y as int][xx]) is Some
                                implies has_grain_at(gs1, xx, y as int) by {
                            if xx < x as int {
                                let i0 = choose|i: int|
                                    0 <= i < gs0.len() && (#[trigger] gs0[i]).x == xx && gs0[i].y
                                        == y as int;
                                assert(gs1[i0].x == xx && gs1[i0].y == y as int);
                            } else {
                                assert(gs1[n].x == xx && gs1[n].y == y as int);
                            }
                        }
                    }
                }
                proof {
                    assert(occ()(gv[y as int][x as int]) == (gv[y as int][x as int] is Some));
                }
                x = x + 1;
            }
            y = y + 1;
        }
        proof {
            assert(grains@.len() == grid_cnt(gv, occ(), rows, cols));
        }
        SandState {
            version: SAND_STATE_VERSION,
            grid_width,
            grid_height,
            grains,
        }
    }

    /// Rebuilds the grid from a snapshot.  A snapshot with a foreign
    /// version tag is ignored; one with a zero dimension clears the
    /// grid.  Otherwise each grain is placed at its recorded cell
    /// (out-of-range grains are skipped, unknown category ids become
    /// category 0), and when the live grid has another size the result
    /// is run through the resize engine.  `grain_count` is recomputed
    /// by full scan.
    #[verifier::rlimit(100)]
    pub fn restore_state(&mut self, state: &SandState, valid_category_ids: &HashSet<u64>)
        requires
            old(self).wf(),
            (state.grid_height as int) * (state.grid_width as int) <= usize::MAX as int,
        ensures
            final(self).wf(),
            final(self).width == old(self).width,
            final(self).height == old(self).height,
            final(self).frame_count == old(self).frame_count,
            state.version != SAND_STATE_VERSION ==> *final(self) == *old(self),
            (state.version == SAND_STATE_VERSION && (state.grid_width == 0 || state.grid_height
                == 0)) ==> {
                &&& final(self).rows() == old(self).rows()
                &&& final(self).cols() == old(self).cols()
                &&& final(self).grain_count == 0
                &&& forall|y: int, x: int|
                    0 <= y < final(self).rows() && 0 <= x < final(self).cols() ==> (
                    #[trigger] final(self).gv()[y][x]) is None
            },
            ({
                let ok = state.version == SAND_STATE_VERSION && state.grid_width > 0
                    && state.grid_height > 0;
                let rvw = state.grid_width as int;
                let rvh = state.grid_height as int;
                let install = old(self).rows() == 0 || old(self).cols() == 0 || (old(self).cols()
                    == rvw && old(self).rows() == rvh);
                let faithful = grains_distinct(state.grains@) && grains_in_range(
                    state.grains@,
                    rvw,
                    rvh,
                );
                ok ==> {
                    &&& final(self).grain_count <= state.grains@.len()
                    &&& (install ==> {
                        &&& final(self).rows() == rvh
                        &&& final(self).cols() == rvw
                        &&& (grains_distinct(state.grains@) ==> {
                            &&& forall|i: int|
                                0 <= i < state.grains@.len() && (#[trigger] state.grains@[i]).x
                                    < rvw && state.grains@[i].y < rvh ==> final(self).gv()[state.grains@[i].y as int][state.grains@[i].x as int]
                                    == Some(
                                    CategoryId(
                                        sanitized(
                                            state.grains@[i].category_id,
                                            valid_category_ids@,
                                        ),
                                    ),
                                )
                            &&& forall|y: int, x: int|
                                0 <= y < rvh && 0 <= x < rvw && !has_grain_at(state.grains@, x, y)
                                    ==> (#[trigger] final(self).gv()[y][x]) is None
                            &&& final(self).grain_count == in_range_count(
                                state.grains@,
                                rvw,
                                rvh,
                                state.grains@.len() as int,
                            )
                        })
                        &&& (faithful ==> final(self).grain_count == state.grains@.len())
                    })
                    &&& (!install ==> {
                        &&& final(self).rows() == old(self).rows()
                        &&& final(self).cols() == old(self).cols()
                        &&& ((faithful && old(self).rows() >= rvh && old(self).cols() >= rvw)
                            ==> final(self).grain_count == state.grains@.len())
                    })
                }
            }),
    {
        if state.version != SAND_STATE_VERSION {
            return;
        }
        if state.grid_width == 0 || state.grid_height == 0 {
            self.clear();
            return;
        }

        let rvw = state.grid_width;
        let rvh = state.grid_height;
        let ghost gs = state.grains@;
        let ghost valid = valid_category_ids@;
        let ghost faithful = grains_distinct(gs) && grains_in_range(gs, rvw as int, rvh as int);

        let mut restored = make_grid(rvh, rvw);
        proof {
            assert(restored@.len() == rvh as int);
            assert(grid_view(&restored)[0] == restored@[0]@);
            assert(grid_w(&restored) == rvw as int);
            crate::grid::lemma_win_cnt_false(
                grid_view(&restored),
                occ(),
                0,
                rvh as int,
                0,
                rvw as int,
            );
        }

        let n = state.grains.len();
        let mut i: usize = 0;
        while i < n
            invariant
                n == gs.len(),
                gs == state.grains@,
                valid == valid_category_ids@,
                faithful == (grains_distinct(gs) && grains_in_range(gs, rvw as int, rvh as int)),
                rvw > 0,
                rvh > 0,
                (rvh as int) * (rvw as int) <= usize::MAX as int,
                i <= n,
                restored@.len() == rvh as int,
                grid_wf(grid_view(&restored), rvh as int, rvw as int),
                forall|y: int, x: int|
                    0 <= y < rvh && 0 <= x < rvw && (#[trigger] grid_view(&restored)[y][x]) is Some
                        ==> exists|j: int|
                        0 <= j < i && (#[trigger] gs[j]).x == x && gs[j].y == y && grid_view(
                            &restored,
                        )[y][x] == Some(CategoryId(sanitized(gs[j].category_id, valid))),
                forall|y: int, x: int, j: int|
                    0 <= y < rvh && 0 <= x < rvw && 0 <= j < i && (#[trigger] gs[j]).x == x
                        && gs[j].y == y ==> (#[trigger] grid_view(&restored)[y][x]) is Some,
                grid_cnt(grid_view(&restored), occ(), rvh as int, rvw as int) <= i as int,
                grains_distinct(gs) ==> grid_cnt(grid_view(&restored), occ(), rvh as int, rvw as int)
                    == in_range_count(gs, rvw as int, rvh as int, i as int),
            decreases n - i,
        {
            let g = state.grains[i];
            if g.x < rvw && g.y < rvh {
                let id = if valid_category_ids.contains(&g.category_id) {
                    g.category_id
                } else {
                    0
                };
                proof {
                    assert(id == sanitized(g.category_id, valid));
                }
                let ghost rv0 = grid_view(&restored);
                let ghost was = rv0[g.y as int][g.x as int];
                proof {
                    assert(grid_view(&restored)[g.y as int] == restored@[g.y as int]@);
                }
                set_cell(&mut restored, g.y, g.x, Some(CategoryId(id)));
                proof {
                    let rv1 = grid_view(&restored);
                    lemma_set_cell_frame(
                        rv0,
                        rv1,
                        rvh as int,
                        rvw as int,
                        g.y as int,
                        g.x as int,
                        Some(CategoryId(id)),
                    );
                    assert(rv1.len() == restored@.len());
                    assert(rv1[0] == restored@[0]@);
                    assert(grid_w(&restored) == rvw as int);
                    assert forall|y: int, x: int|
                        0 <= y < rvh && 0 <= x < rvw && (#[trigger] rv1[y][x]) is Some
                            implies exists|j: int|
                        0 <= j < i + 1 && (#[trigger] gs[j]).x == x && gs[j].y == y && rv1[y][x]
                            == Some(CategoryId(sanitized(gs[j].category_id, valid))) by {
                        if y == g.y as int && x == g.x as int {
                            assert(gs[i as int].x == x && gs[i as int].y == y && rv1[y][x] == Some(
                                CategoryId(sanitized(gs[i as int].category_id, valid)),
                            ));
                        } else {
                            assert(rv1[y][x] == rv0[y][x]);
                            let j0 = choose|j: int|
                                0 <= j < i && (#[trigger] gs[j]).x == x && gs[j].y == y && rv0[y][x]
                                    == Some(CategoryId(sanitized(gs[j].category_id, valid)));
                            assert(0 <= j0 < i + 1 && gs[j0].x == x && gs[j0].y == y && rv1[y][x]
                                == Some(CategoryId(sanitized(gs[j0].category_id, valid))));
                        }
                    }
                    if was is Some {
                        lemma_win_cnt_update(
                            rv0,
                            rv1,
                            occ(),
                            0,
                            rvh as int,
                            0,
                            rvw as int,
                            g.y as int,
                            g.x as int,
                        );
                        if grains_distinct(gs) {
                            let j0 = choose|j: int|
                                0 <= j < i && (#[trigger] gs[j]).x == g.x as int && gs[j].y
                                    == g.y as int && rv0[g.y as int][g.x as int] == Some(
                                    CategoryId(sanitized(gs[j].category_id, valid)),
                                );
                            assert(!(gs[j0].x == gs[i as int].x && gs[j0].y == gs[i as int].y));
                            assert(false);
                        }
                    } else {
                        lemma_win_cnt_update(
                            rv0,
                            rv1,
                            occ(),
                            0,
                            rvh as int,
                            0,
                            rvw as int,
                            g.y as int,
                            g.x as int,
                        );
                    }
                    assert(in_range_count(gs, rvw as int, rvh as int, i as int + 1)
                        == in_range_count(gs, rvw as int, rvh as int, i as int) + 1);
                }
            } else {
                proof {
                    assert(in_range_count(gs, rvw as int, rvh as int, i as int + 1)
                        == in_range_count(gs, rvw as int, rvh as int, i as int));
                }
            }
            i = i + 1;
        }

        let ghost rv = grid_view(&restored);

        let target_height = self.grid.len();
        let target_width = if target_height == 0 {
            0
        } else {
            self.grid[0].len()
        };
        proof {
            if target_height > 0 {
                assert(self.gv()[0] == self.grid@[0]@);
            }
            assert(target_width as int == old(self).cols());
            assert(target_height as int == old(self).rows());
        }

        let install = target_width == 0 || target_height == 0 || (target_width == rvw
            && target_height == rvh);
        proof {
            assert(grid_view(&restored)[0] == restored@[0]@);
            assert(grid_w(&restored) == rvw as int);
        }
        let ghost mut mid: Seq<Seq<crate::grid::Cell>> = Seq::empty();
        let ghost mut pre_grav = *self;
        if install {
            self.grid = restored;
        } else {
            proof {
                assert((target_height as int) * (target_width as int) <= usize::MAX as int);
            }
            let ng = resize_grid(&restored, target_width, target_height, DOT_WIDTH, DOT_HEIGHT);
            proof {
                mid = grid_view(&ng);
            }
            self.grid = ng;
            proof {
                assert(self.rows() == target_height as int);
                if target_height > 0 {
                    assert(self.gv()[0] == self.grid@[0]@);
                }
                pre_grav = *self;
            }
            self.apply_gravity();
        }

        let h2 = self.grid.len();
        let w2 = if h2 == 0 {
            0
        } else {
            self.grid[0].len()
        };
        proof {
            if h2 > 0 {
                assert(self.gv()[0] == self.grid@[0]@);
            }
            assert(w2 as int == self.cols());
        }
        let c = count_grains(&self.grid, w2);
        self.grain_count = c;

        proof {
            let nlen = gs.len() as int;
            if install {
                assert(self.gv() == rv);
                assert(self.rows() == rvh as int);
                assert(self.cols() == rvw as int);
                assert(self.grain_count as int == grid_cnt(rv, occ(), rvh as int, rvw as int));
                if grains_distinct(gs) {
                    assert forall|i2: int|
                        0 <= i2 < nlen && (#[trigger] gs[i2]).x < rvw && gs[i2].y < rvh
                        implies self.gv()[gs[i2].y as int][gs[i2].x as int] == Some(
                        CategoryId(sanitized(gs[i2].category_id, valid)),
                    ) by {
                        assert(rv[gs[i2].y as int][gs[i2].x as int] is Some);
                        let j0 = choose|j: int|
                            0 <= j < nlen && (#[trigger] gs[j]).x == gs[i2].x as int && gs[j].y
                                == gs[i2].y as int && rv[gs[i2].y as int][gs[i2].x as int] == Some(
                                CategoryId(sanitized(gs[j].category_id, valid)),
                            );
                        if j0 != i2 {
                            assert(!(gs[j0].x == gs[i2].x && gs[j0].y == gs[i2].y));
                            assert(false);
                        }
                    }
                    assert forall|y: int, x: int|
                        0 <= y < rvh && 0 <= x < rvw && !has_grain_at(gs, x, y) implies (
                    #[trigger] self.gv()[y][x]) is None by {
                        if rv[y][x] is Some {
                            let j0 = choose|j: int|
                                0 <= j < nlen && (#[trigger] gs[j]).x == x && gs[j].y == y
                                    && rv[y][x] == Some(
                                    CategoryId(sanitized(gs[j].category_id, valid)),
                                );
                            assert(has_grain_at(gs, x, y));
                            assert(false);
                        }
                    }
                }
                if faithful {
                    lemma_in_range_count_all(gs, rvw as int, rvh as int, nlen);
                }
            } else {
                let th = target_height as int;
                let tw = target_width as int;
                assert(self.rows() == th);
                assert(self.cols() == tw);
                assert(pre_grav.rows() == th);
                assert(pre_grav.cols() == tw);
                assert(pre_grav.gv() == mid);
                assert(grid_cnt(self.gv(), occ(), th, tw) == grid_cnt(mid, occ(), th, tw));
                if faithful && th >= rvh as int && tw >= rvw as int {
                    lemma_in_range_count_all(gs, rvw as int, rvh as int, nlen);
                    assert(crate::resize::kw_src_start(rvh as int, th) == 0);
                    assert(crate::resize::kw_src_end(rvh as int, th) == rvh as int);
                    assert(crate::resize::kw_src_start(rvw as int, tw) == 0);
                    assert(crate::resize::kw_src_end(rvw as int, tw) == rvw as int);
                    assert(all_in_window(
                        rv,
                        rvh as int,
                        rvw as int,
                        0,
                        rvh as int,
                        0,
                        rvw as int,
                    ));
                    assert(grid_cnt(mid, occ(), th, tw) == grid_cnt(
                        rv,
                        occ(),
                        rvh as int,
                        rvw as int,
                    ));
                }
            }
        }
    }
}

/// When every grain of a snapshot lies inside the grid, the in-range
/// prefix count is the prefix length itself.
proof fn lemma_in_range_count_all(gs: Seq<SandStateGrain>, w: int, h: int, n: int)
    requires
        0 <= n <= gs.len(),
        grains_in_range(gs, w, h),
    ensures
        in_range_count(gs, w, h, n) == n,
    decreases n,
{
    if n > 0 {
        lemma_in_range_count_all(gs, w, h, n - 1);
    }
}

} // verus!
