//! Rendering the grid as braille glyphs.
//!
//! Every terminal cell covers `DOT_WIDTH` by `DOT_HEIGHT` sub-cells;
//! each occupied sub-cell sets one bit of an 8-bit mask laid out like
//! the braille block's dot numbering, and the glyph is the braille
//! base codepoint plus the mask.  Alongside the mask, each cell
//! reports how many of its occupied sub-cells belong to each category,
//! in first-appearance order; the caller blends its colors from these
//! shares.

use vstd::prelude::*;

use crate::domain::CategoryId;
use crate::engine::{SandEngine, BRAILLE_BASE, DOT_HEIGHT, DOT_WIDTH};
use crate::grid::Cell;

verus! {

/// The braille dot bit for sub-cell column `dx` and row `dy`.
pub open spec fn dot_index(dx: int, dy: int) -> u8 {
    if dx == 0 {
        if dy == 0 {
            0
        } else if dy == 1 {
            1
        } else if dy == 2 {
            2
        } else {
            6
        }
    } else {
        if dy == 0 {
            3
        } else if dy == 1 {
            4
        } else if dy == 2 {
            5
        } else {
            7
        }
    }
}

/// Whether sub-cell number `t` (row-major inside the glyph) of glyph
/// cell `(cy, cx)` lies on an occupied grid cell; sub-cells outside
/// the grid count as empty.
pub open spec fn subcell_occupied(
    gv: Seq<Seq<Cell>>,
    gh: int,
    gw: int,
    cy: int,
    cx: int,
    t: int,
) -> bool {
    let dy = t / 2;
    let dx = t % 2;
    let gy = cy * (DOT_HEIGHT as int) + dy;
    let gx = cx * (DOT_WIDTH as int) + dx;
    0 <= gy < gh && 0 <= gx < gw && gv[gy][gx] is Some
}

/// Whether sub-cell number `t` holds a grain of category `k`.
pub open spec fn subcell_cat(
    gv: Seq<Seq<Cell>>,
    gh: int,
    gw: int,
    cy: int,
    cx: int,
    t: int,
    k: u64,
) -> bool {
    let dy = t / 2;
    let dx = t % 2;
    let gy = cy * (DOT_HEIGHT as int) + dy;
    let gx = cx * (DOT_WIDTH as int) + dx;
    0 <= gy < gh && 0 <= gx < gw && gv[gy][gx] == Some(CategoryId(k))
}

/// The braille mask of the first `t` sub-cells of glyph cell `(cy, cx)`.
pub open spec fn mask_upto(gv: Seq<Seq<Cell>>, gh: int, gw: int, cy: int, cx: int, t: int) -> u8
    decreases t,
{
    if t <= 0 {
        0
    } else {
        let m = mask_upto(gv, gh, gw, cy, cx, t - 1);
        if subcell_occupied(gv, gh, gw, cy, cx, t - 1) {
            m | (1u8 << dot_index((t - 1) % 2, (t - 1) / 2))
        } else {
            m
        }
    }
}

/// How many of the first `t` sub-cells of glyph cell `(cy, cx)` hold a
/// grain of category `k`.
pub open spec fn share_upto(
    gv: Seq<Seq<Cell>>,
    gh: int,
    gw: int,
    cy: int,
    cx: int,
    t: int,
    k: u64,
) -> int
    decreases t,
{
    if t <= 0 {
        0
    } else {
        share_upto(gv, gh, gw, cy, cx, t - 1, k) + if subcell_cat(gv, gh, gw, cy, cx, t - 1, k) {
            1int
        } else {
            0int
        }
    }
}

proof fn lemma_share_bounds(gv: Seq<Seq<Cell>>, gh: int, gw: int, cy: int, cx: int, t: int, k: u64)
    requires
        t >= 0,
    ensures
        0 <= share_upto(gv, gh, gw, cy, cx, t, k) <= t,
    decreases t,
{
    if t > 0 {
        lemma_share_bounds(gv, gh, gw, cy, cx, t - 1, k);
    }
}

/// A correct share list for the first `t` sub-cells of glyph cell
/// `(cy, cx)`: distinct categories, each with its exact sub-cell
/// count, and one entry for every category that occurs.
pub open spec fn shares_ok(
    ts: Seq<(CategoryId, usize)>,
    gv: Seq<Seq<Cell>>,
    gh: int,
    gw: int,
    cy: int,
    cx: int,
    t: int,
) -> bool {
    &&& forall|i: int, j: int|
        0 <= i < ts.len() && 0 <= j < ts.len() && i != j ==> (#[trigger] ts[i]).0 != (
        #[trigger] ts[j]).0
    &&& forall|i: int|
        0 <= i < ts.len() ==> (#[trigger] ts[i]).1 as int == share_upto(
            gv,
            gh,
            gw,
            cy,
            cx,
            t,
            ts[i].0.0,
        ) && ts[i].1 > 0
    &&& forall|k: u64|
        #[trigger] share_upto(gv, gh, gw, cy, cx, t, k) > 0 ==> exists|i: int|
            0 <= i < ts.len() && (#[trigger] ts[i]).0 == CategoryId(k)
}

/// One rendered terminal cell: a braille codepoint and the occupied
/// sub-cell count of each category present, in first-appearance order.
pub struct GlyphCell {
    pub codepoint: u32,
    pub shares: Vec<(CategoryId, usize)>,
}

impl SandEngine {
    /// Renders one terminal cell.
    pub fn render_cell(&self, cy: usize, cx: usize) -> (r: GlyphCell)
        requires
            self.wf(),
            (cy as int) * (DOT_HEIGHT as int) + (DOT_HEIGHT as int) <= usize::MAX as int,
            (cx as int) * (DOT_WIDTH as int) + (DOT_WIDTH as int) <= usize::MAX as int,
        ensures
            r.codepoint == BRAILLE_BASE + mask_upto(
                self.gv(),
                self.rows(),
                self.cols(),
                cy as int,
                cx as int,
                8,
            ) as u32,
            shares_ok(r.shares@, self.gv(), self.rows(), self.cols(), cy as int, cx as int, 8),
    {
        let ghost gv = self.gv();
        let ghost gh = self.rows();
        let ghost gw = self.cols();
        let grid_h = self.grid.len();
        let grid_w_exec = if grid_h == 0 {
            0
        } else {
            self.grid[0].len()
        };
        proof {
            if grid_h > 0 {
                assert(self.gv()[0] == self.grid@[0]@);
            }
            assert(grid_w_exec as int == gw);
        }

        let mut dots: u8 = 0;
        let mut shares: Vec<(CategoryId, usize)> = Vec::new();

        let mut dy: usize = 0;
        while dy < DOT_HEIGHT
            invariant
                self.wf(),
                gv == self.gv(),
                gh == self.rows(),
                gw == self.cols(),
                grid_h == self.grid@.len(),
                grid_w_exec as int == gw,
                (cy as int) * (DOT_HEIGHT as int) + (DOT_HEIGHT as int) <= usize::MAX as int,
                (cx as int) * (DOT_WIDTH as int) + (DOT_WIDTH as int) <= usize::MAX as int,
                dy <= DOT_HEIGHT,
                dots == mask_upto(gv, gh, gw, cy as int, cx as int, (dy * DOT_WIDTH) as int),
                shares_ok(shares@, gv, gh, gw, cy as int, cx as int, (dy * DOT_WIDTH) as int),
            decreases DOT_HEIGHT - dy,
        {
            let mut dx: usize = 0;
            while dx < DOT_WIDTH
                invariant
                    self.wf(),
                    gv == self.gv(),
                    gh == self.rows(),
                    gw == self.cols(),
                    grid_h == self.grid@.len(),
                    grid_w_exec as int == gw,
                    (cy as int) * (DOT_HEIGHT as int) + (DOT_HEIGHT as int) <= usize::MAX as int,
                    (cx as int) * (DOT_WIDTH as int) + (DOT_WIDTH as int) <= usize::MAX as int,
                    dy < DOT_HEIGHT,
                    dx <= DOT_WIDTH,
                    dots == mask_upto(gv, gh, gw, cy as int, cx as int, (dy * DOT_WIDTH + dx) as int),
                    shares_ok(
                        shares@,
                        gv,
                        gh,
                        gw,
                        cy as int,
                        cx as int,
                        (dy * DOT_WIDTH + dx) as int,
                    ),
                decreases DOT_WIDTH - dx,
            {
                let ghost t = (dy * DOT_WIDTH + dx) as int;
                proof {
                    assert(t / 2 == dy as int && t % 2 == dx as int) by (nonlinear_arith)
                        requires
                            t == (dy as int) * 2 + (dx as int),
                            0 <= dx < 2,
                            0 <= dy,
                    ;
                }
                let gy = cy * DOT_HEIGHT + dy;
                let gx = cx * DOT_WIDTH + dx;

                let cell: Cell = if gy < grid_h && gx < grid_w_exec {
                    proof {
                        assert(self.gv()[gy as int] == self.grid@[gy as int]@);
                    }
                    self.grid[gy][gx]
                } else {
                    None
                };
                proof {
                    assert(subcell_occupied(gv, gh, gw, cy as int, cx as int, t) == (cell is Some));
                    assert forall|k: u64|
                        #[trigger] subcell_cat(gv, gh, gw, cy as int, cx as int, t, k) == (cell
                            == Some(CategoryId(k))) by {
                    }
                }

                if let Some(c) = cell {
                    let idx: u8 = if dx == 0 {
                        if dy == 0 {
                            0
                        } else if dy == 1 {
                            1
                        } else if dy == 2 {
                            2
                        } else {
                            6
                        }
                    } else {
                        if dy == 0 {
                            3
                        } else if dy == 1 {
                            4
                        } else if dy == 2 {
                            5
                        } else {
                            7
                        }
                    };
                    proof {
                        assert(idx == dot_index(t % 2, t / 2));
                    }
                    dots = dots | (1u8 << idx);

                    let ghost shares0 = shares@;
                    let mut idx_found: Option<usize> = None;
                    let mut j: usize = 0;
                    while j < shares.len()
                        invariant
                            shares@ == shares0,
                            j <= shares0.len(),
                            idx_found is None ==> forall|i: int|
                                0 <= i < j ==> (#[trigger] shares0[i]).0 != c,
                            idx_found matches Some(v) ==> (v as int) < shares0.len()
                                && shares0[idx_found->0 as int].0 == c,
                        decreases shares0.len() - j,
                    {
                        if shares[j].0.0 == c.0 {
                            proof {
                                assert(shares0[j as int].0 == CategoryId(shares0[j as int].0.0));
                                assert(c == CategoryId(c.0));
                            }
                            idx_found = Some(j);
                        }
                        j = j + 1;
                    }
                    proof {
                        lemma_share_bounds(gv, gh, gw, cy as int, cx as int, t, c.0);
                        assert(c == CategoryId(c.0));
                        assert forall|k: u64|
                            #[trigger] share_upto(gv, gh, gw, cy as int, cx as int, t + 1, k)
                                == share_upto(gv, gh, gw, cy as int, cx as int, t, k) + (if k
                                == c.0 {
                                1int
                            } else {
                                0int
                            }) by {}
                        assert forall|i: int|
                            0 <= i < shares0.len() implies (#[trigger] shares0[i]).0 == CategoryId(
                            shares0[i].0.0,
                        ) by {}
                    }
                    match idx_found {
                        Some(jf) => {
                            let entry = shares[jf];
                            proof {
                                assert(entry == shares0[jf as int]);
                                assert(entry.1 as int == share_upto(
                                    gv,
                                    gh,
                                    gw,
                                    cy as int,
                                    cx as int,
                                    t,
                                    c.0,
                                ));
                                assert(t < 8);
                            }
                            shares[jf] = (entry.0, entry.1 + 1);
                            proof {
                                let s1 = shares@;
                                assert(s1 == shares0.update(
                                    jf as int,
                                    (entry.0, (entry.1 + 1) as usize),
                                ));
                                assert forall|i: int|
                                    0 <= i < s1.len() && i != jf implies #[trigger] s1[i]
                                    == shares0[i] by {}
                                assert(s1[jf as int].0 == c && s1[jf as int].1 == entry.1 + 1);
                                assert forall|i: int|
                                    0 <= i < s1.len() implies (#[trigger] s1[i]).1 as int
                                    == share_upto(
                                    gv,
                                    gh,
                                    gw,
                                    cy as int,
                                    cx as int,
                                    t + 1,
                                    s1[i].0.0,
                                ) && s1[i].1 > 0 by {
                                    if i != jf {
                                        assert(s1[i] == shares0[i]);
                                        if s1[i].0.0 == c.0 {
                                            assert(shares0[i].0 == CategoryId(shares0[i].0.0));
                                            assert(shares0[i].0 == c);
                                            assert(shares0[jf as int].0 == c);
                                            assert(false);
                                        }
                                    }
                                }
                                assert forall|k: u64|
                                    #[trigger] share_upto(
                                        gv,
                                        gh,
                                        gw,
                                        cy as int,
                                        cx as int,
                                        t + 1,
                                        k,
                                    ) > 0 implies exists|i: int|
                                    0 <= i < s1.len() && (#[trigger] s1[i]).0 == CategoryId(k) by {
                                    if k == c.0 {
                                        assert(s1[jf as int].0 == CategoryId(k));
                                    } else {
                                        assert(share_upto(gv, gh, gw, cy as int, cx as int, t, k)
                                            > 0);
                                        let i0 = choose|i: int|
                                            0 <= i < shares0.len() && (#[trigger] shares0[i]).0
                                                == CategoryId(k);
                                        assert(s1[i0].0 == CategoryId(k));
                                    }
                                }
                            }
                        },
                        None => {
                            proof {
                                assert(share_upto(gv, gh, gw, cy as int, cx as int, t, c.0) <= 0);
                            }
                            shares.push((c, 1));
                            proof {
                                let s1 = shares@;
                                assert(s1 == shares0.push((c, 1usize)));
                                let n = shares0.len() as int;
                                assert forall|i: int|
                                    0 <= i < n implies #[trigger] s1[i] == shares0[i] by {}
                                assert(s1[n] == (c, 1usize));
                                assert forall|i: int|
                                    0 <= i < s1.len() implies (#[trigger] s1[i]).1 as int
                                    == share_upto(
                                    gv,
                                    gh,
                                    gw,
                                    cy as int,
                                    cx as int,
                                    t + 1,
                                    s1[i].0.0,
                                ) && s1[i].1 > 0 by {
                                    if i < n {
                                        assert(s1[i] == shares0[i]);
                                        if s1[i].0.0 == c.0 {
                                            assert(shares0[i].0 == CategoryId(shares0[i].0.0));
                                            assert(shares0[i].0 == c);
                                            assert(false);
                                        }
                                    } else {
                                        assert(s1[i] == (c, 1usize));
                                        assert(share_upto(gv, gh, gw, cy as int, cx as int, t, c.0)
                                            == 0);
                                    }
                                }
                                assert forall|i1: int, i2: int|
                                    0 <= i1 < s1.len() && 0 <= i2 < s1.len() && i1 != i2 implies (
                                #[trigger] s1[i1]).0 != (#[trigger] s1[i2]).0 by {
                                    if i1 < n && i2 < n {
                                        assert(s1[i1] == shares0[i1] && s1[i2] == shares0[i2]);
                                    } else if i1 == n {
                                        assert(s1[i2] == shares0[i2]);
                                        assert(shares0[i2].0 != c);
                                    } else {
                                        assert(s1[i1] == shares0[i1]);
                                        assert(shares0[i1].0 != c);
                                    }
                                }
                                assert forall|k: u64|
                                    #[trigger] share_upto(
                                        gv,
                                        gh,
                                        gw,
                                        cy as int,
                                        cx as int,
                                        t + 1,
                                        k,
                                    ) > 0 implies exists|i: int|
                                    0 <= i < s1.len() && (#[trigger] s1[i]).0 == CategoryId(k) by {
                                    if k == c.0 {
                                        assert(s1[n].0 == CategoryId(k));
                                    } else {
                                        assert(share_upto(gv, gh, gw, cy as int, cx as int, t, k)
                                            > 0);
                                        let i0 = choose|i: int|
                                            0 <= i < shares0.len() && (#[trigger] shares0[i]).0
                                                == CategoryId(k);
                                        assert(s1[i0].0 == CategoryId(k));
                                    }
                                }
                            }
                        },
                    }
                } else {
                    proof {
                        assert forall|k: u64|
                            #[trigger] share_upto(gv, gh, gw, cy as int, cx as int, t + 1, k)
                                == share_upto(gv, gh, gw, cy as int, cx as int, t, k) by {}
                    }
                }
                dx = dx + 1;
            }
            dy = dy + 1;
        }

        GlyphCell { codepoint: BRAILLE_BASE + dots as u32, shares }
    }

    /// Renders the whole grid: one row of glyph cells per terminal row
    /// the viewport covers and one glyph cell per terminal column,
    /// scanning rows top to bottom and columns left to right.
    pub fn render_cells(&self) -> (r: Vec<Vec<GlyphCell>>)
        requires
            self.wf(),
        ensures
            r@.len() == (self.height as int) / (DOT_HEIGHT as int),
            forall|cy: int|
                0 <= cy < r@.len() ==> (#[trigger] r@[cy])@.len() == (self.width as int) / (
                DOT_WIDTH as int),
            forall|cy: int, cx: int|
                0 <= cy < r@.len() && 0 <= cx < (self.width as int) / (DOT_WIDTH as int) ==> {
                    &&& (#[trigger] r@[cy]@[cx]).codepoint == BRAILLE_BASE + mask_upto(
                        self.gv(),
                        self.rows(),
                        self.cols(),
                        cy,
                        cx,
                        8,
                    ) as u32
                    &&& shares_ok(r@[cy]@[cx].shares@, self.gv(), self.rows(), self.cols(), cy, cx, 8)
                },
    {
        let cell_w = (self.width / (DOT_WIDTH as u16)) as usize;
        let cell_h = (self.height / (DOT_HEIGHT as u16)) as usize;
        let mut rows_out: Vec<Vec<GlyphCell>> = Vec::new();
        let mut cy: usize = 0;
        while cy < cell_h
            invariant
                self.wf(),
                cell_w == (self.width as int) / (DOT_WIDTH as int),
                cell_h == (self.height as int) / (DOT_HEIGHT as int),
                cy <= cell_h,
                rows_out@.len() == cy,
                forall|i: int| 0 <= i < cy ==> (#[trigger] rows_out@[i])@.len() == cell_w as int,
                forall|i: int, j: int|
                    0 <= i < cy && 0 <= j < cell_w ==> {
                        &&& (#[trigger] rows_out@[i]@[j]).codepoint == BRAILLE_BASE + mask_upto(
                            self.gv(),
                            self.rows(),
                            self.cols(),
                            i,
                            j,
                            8,
                        ) as u32
                        &&& shares_ok(
                            rows_out@[i]@[j].shares@,
                            self.gv(),
                            self.rows(),
                            self.cols(),
                            i,
                            j,
                            8,
                        )
                    },
            decreases cell_h - cy,
        {
            let mut row: Vec<GlyphCell> = Vec::new();
            let mut cx: usize = 0;
            while cx < cell_w
                invariant
                    self.wf(),
                    cell_w == (self.width as int) / (DOT_WIDTH as int),
                    cy < cell_h,
                    cell_h == (self.height as int) / (DOT_HEIGHT as int),
                    cx <= cell_w,
                    row@.len() == cx,
                    forall|j: int|
                        0 <= j < cx ==> {
                            &&& (#[trigger] row@[j]).codepoint == BRAILLE_BASE + mask_upto(
                                self.gv(),
                                self.rows(),
                                self.cols(),
                                cy as int,
                                j,
                                8,
                            ) as u32
                            &&& shares_ok(
                                row@[j].shares@,
                                self.gv(),
                                self.rows(),
                                self.cols(),
                                cy as int,
                                j,
                                8,
                            )
                        },
                decreases cell_w - cx,
            {
                let cell = self.render_cell(cy, cx);
                row.push(cell);
                cx = cx + 1;
            }
            rows_out.push(row);
            cy = cy + 1;
        }
        rows_out
    }
}

} // verus!
