//! The conservation laws of the engine, stated and proved once for
//! all inputs.  Each law builds on the contracts of the resize engine
//! and the state codec.

use vstd::prelude::*;

use crate::domain::CategoryId;
use crate::grid::{grid_wf, Cell};
use crate::resize::{all_in_window, kw_src_end, kw_src_start};
use crate::state::{grains_distinct, grains_in_range, has_grain_at, sanitized, SandStateGrain};

verus! {

/// Conservation under growth: when neither dimension shrinks, the kept
/// window covers the whole old grid, so no grain lies outside it.
/// Together with the resize contract this gives exact conservation of
/// the total and of every per-category count for any grow or same-size
/// resize.
pub proof fn lemma_grow_keeps_all_in_window(g: Seq<Seq<Cell>>, oh: int, ow: int, nh: int, nw: int)
    requires
        nh >= oh,
        nw >= ow,
    ensures
        all_in_window(
            g,
            oh,
            ow,
            kw_src_start(oh, nh),
            kw_src_end(oh, nh),
            kw_src_start(ow, nw),
            kw_src_end(ow, nw),
        ),
{
    assert(kw_src_start(oh, nh) == 0 && kw_src_end(oh, nh) == oh);
    assert(kw_src_start(ow, nw) == 0 && kw_src_end(ow, nw) == ow);
}

/// Shrink survival of the center: the exact center cell of an axis
/// always lies inside the centered kept window of a shrink, except
/// when an even-length axis shrinks to a single cell.  Together with
/// the resize contract (grains of the kept window survive at their
/// shifted position) this shows that a grain at the grid's center
/// survives a shrink to any smaller size, and that the shrink
/// preserves the exact counts whenever no grain lies outside the kept
/// window.
pub proof fn lemma_center_in_kept_window(old_len: int, new_len: int)
    requires
        0 < new_len <= old_len,
        !(new_len == 1 && old_len % 2 == 0),
    ensures
        kw_src_start(old_len, new_len) <= old_len / 2 < kw_src_end(old_len, new_len),
{
    if new_len < old_len {
        let a = (old_len - new_len) / 2;
        let c = old_len / 2;
        assert(2 * a <= old_len - new_len);
        assert(old_len - new_len <= 2 * a + 1);
        assert(2 * c <= old_len);
        assert(old_len <= 2 * c + 1);
        assert(a <= c);
        assert(c < a + new_len);
    }
}

/// Round trip of the state codec: restoring a snapshot of a grid into
/// an equal-sized grid reproduces every cell exactly, provided every
/// category id of the snapshot is still valid.  The hypotheses are
/// exactly what `snapshot_state` guarantees of the snapshot it took
/// from `g1` and what `restore_state` guarantees of the grid `g2` it
/// rebuilt from that snapshot.
pub proof fn lemma_snapshot_restore_round_trip(
    gs: Seq<SandStateGrain>,
    g1: Seq<Seq<Cell>>,
    g2: Seq<Seq<Cell>>,
    h: int,
    w: int,
    valid: Set<u64>,
)
    requires
        grid_wf(g1, h, w),
        grid_wf(g2, h, w),
        grains_distinct(gs),
        grains_in_range(gs, w, h),
        forall|i: int|
            0 <= i < gs.len() ==> g1[(#[trigger] gs[i]).y as int][gs[i].x as int] == Some(
                CategoryId(gs[i].category_id),
            ),
        forall|y: int, x: int|
            0 <= y < h && 0 <= x < w && (#[trigger] g1[y][x]) is Some ==> has_grain_at(gs, x, y),
        forall|i: int| 0 <= i < gs.len() ==> valid.contains((#[trigger] gs[i]).category_id),
        forall|i: int|
            0 <= i < gs.len() ==> g2[(#[trigger] gs[i]).y as int][gs[i].x as int] == Some(
                CategoryId(sanitized(gs[i].category_id, valid)),
            ),
        forall|y: int, x: int|
            0 <= y < h && 0 <= x < w && !has_grain_at(gs, x, y) ==> (#[trigger] g2[y][x]) is None,
    ensures
        forall|y: int, x: int| 0 <= y < h && 0 <= x < w ==> #[trigger] g1[y][x] == g2[y][x],
{
    assert forall|y: int, x: int| 0 <= y < h && 0 <= x < w implies #[trigger] g1[y][x]
        == g2[y][x] by {
        if has_grain_at(gs, x, y) {
            let i = choose|i: int| 0 <= i < gs.len() && (#[trigger] gs[i]).x == x && gs[i].y == y;
            assert(g1[y][x] == Some(CategoryId(gs[i].category_id)));
            assert(valid.contains(gs[i].category_id));
            assert(g2[y][x] == Some(CategoryId(sanitized(gs[i].category_id, valid))));
        } else {
            assert(g2[y][x] is None);
            if g1[y][x] is Some {
                assert(has_grain_at(gs, x, y));
            }
        }
    }
}

} // verus!
