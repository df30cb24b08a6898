use vstd::prelude::*;

use crate::geometry::{Plate, Rect, WallSet};
use crate::merge::{fill_wall_rects, is_stack, row_has, row_wf, rows_view, stacks_exact};
use crate::plates::{combine_walls_into_plates, is_run, lemma_row_plates_are_runs, rows_exact};

verus! {

/// `r` is a maximal stack of one run: every row from `bottom` to `top` has
/// `r.plate()` as a maximal run of walls, and the rows just below and above
/// do not.
pub open spec fn is_wall_rect(walls: Set<(int, int)>, w: int, h: int, r: Rect) -> bool {
    &&& r.bottom <= r.top
    &&& forall|y: int| r.bottom <= y <= r.top ==> #[trigger] is_run(walls, w, h, y, r.plate())
    &&& !is_run(walls, w, h, r.bottom - 1, r.plate())
    &&& !is_run(walls, w, h, r.top + 1, r.plate())
}

/// `out` holds each maximal stack of runs of the `w × h` region exactly once,
/// and nothing else.
pub open spec fn merged_exactly(walls: Set<(int, int)>, w: int, h: int, out: Seq<Rect>) -> bool {
    &&& forall|k: int| 0 <= k < out.len() ==> is_wall_rect(walls, w, h, #[trigger] out[k])
    &&& forall|y: int, p: Plate|
        #[trigger] is_run(walls, w, h, y, p) ==> exists|k: int|
            0 <= k < out.len() && (#[trigger] out[k]).plate() == p && out[k].bottom <= y
                <= out[k].top
    &&& out.no_duplicates()
}

/// The cells that the rectangles cover are exactly the walls inside the
/// `w × h` region.
pub open spec fn covers_exactly(walls: Set<(int, int)>, w: int, h: int, out: Seq<Rect>) -> bool {
    &&& forall|k: int, x: int, y: int|
        0 <= k < out.len() && #[trigger] out[k].covers(x, y) ==> 0 <= x < w && 0 <= y < h
            && walls.contains((x, y))
    &&& forall|x: int, y: int|
        0 <= x < w && 0 <= y < h && #[trigger] walls.contains((x, y)) ==> exists|k: int|
            0 <= k < out.len() && #[trigger] out[k].covers(x, y)
}

/// No cell is covered by two of the rectangles.
pub open spec fn pairwise_disjoint(out: Seq<Rect>) -> bool {
    forall|k1: int, k2: int, x: int, y: int|
        0 <= k1 < out.len() && 0 <= k2 < out.len() && #[trigger] out[k1].covers(x, y)
            && #[trigger] out[k2].covers(x, y) ==> k1 == k2
}

/// Two maximal runs of one row that share a cell are the same run.
pub proof fn lemma_runs_meet(walls: Set<(int, int)>, w: int, h: int, y: int, p: Plate, q: Plate, x: int)
    requires
        is_run(walls, w, h, y, p),
        is_run(walls, w, h, y, q),
        p.holds(x),
        q.holds(x),
    ensures
        p == q,
{
    if p.left < q.left {
        assert(walls.contains((q.left - 1, y)));
    }
    if q.left < p.left {
        assert(walls.contains((p.left - 1, y)));
    }
    if p.right < q.right {
        assert(walls.contains((p.right + 1, y)));
    }
    if q.right < p.right {
        assert(walls.contains((q.right + 1, y)));
    }
}

/// Two maximal stacks of the same run that share a row are the same rectangle.
pub proof fn lemma_wall_rect_unique(walls: Set<(int, int)>, w: int, h: int, r1: Rect, r2: Rect, y: int)
    requires
        is_wall_rect(walls, w, h, r1),
        is_wall_rect(walls, w, h, r2),
        r1.plate() == r2.plate(),
        r1.bottom <= y <= r1.top,
        r2.bottom <= y <= r2.top,
    ensures
        r1 == r2,
{
    let p = r1.plate();
    if r1.bottom < r2.bottom {
        assert(is_run(walls, w, h, r2.bottom - 1, p));
    }
    if r2.bottom < r1.bottom {
        assert(is_run(walls, w, h, r1.bottom - 1, p));
    }
    if r1.top < r2.top {
        assert(is_run(walls, w, h, r1.top + 1, p));
    }
    if r2.top < r1.top {
        assert(is_run(walls, w, h, r2.top + 1, p));
    }
}

/// Rectangles that are maximal stacks of runs never overlap.
pub proof fn lemma_merged_disjoint(walls: Set<(int, int)>, w: int, h: int, out: Seq<Rect>)
    requires
        merged_exactly(walls, w, h, out),
    ensures
        pairwise_disjoint(out),
{
    assert forall|k1: int, k2: int, x: int, y: int|
        0 <= k1 < out.len() && 0 <= k2 < out.len() && #[trigger] out[k1].covers(x, y)
            && #[trigger] out[k2].covers(x, y) implies k1 == k2 by {
        let r1 = out[k1];
        let r2 = out[k2];
        assert(is_run(walls, w, h, y, r1.plate()));
        assert(is_run(walls, w, h, y, r2.plate()));
        lemma_runs_meet(walls, w, h, y, r1.plate(), r2.plate(), x);
        lemma_wall_rect_unique(walls, w, h, r1, r2, y);
    }
}

/// Merges the walls of a `width × height` region into rectangles: the plates
/// of each row, stacked wherever a row repeats the plate of the row below.
pub fn merge_walls(width: i32, height: i32, level_walls: &WallSet) -> (rects: Vec<Rect>)
    ensures
        merged_exactly(level_walls@, width as int, height as int, rects@),
        covers_exactly(level_walls@, width as int, height as int, rects@),
        pairwise_disjoint(rects@),
        forall|k: int| 0 <= k < rects.len() ==> (#[trigger] rects[k]).wf(),
{
    let ghost walls = level_walls@;
    let ghost (w, h) = (width as int, height as int);
    let plate_stack = combine_walls_into_plates(width, height, level_walls);
    let ghost rows = rows_view(plate_stack@);
    proof {
        assert forall|y: int| 0 <= y < plate_stack.len() implies row_wf(#[trigger] plate_stack[y]@) by {
            assert(rows[y] == plate_stack[y]@);
        }
    }
    let rects = fill_wall_rects(&plate_stack);
    proof {
        assert forall|y: int, p: Plate| #[trigger] row_has(rows, y, p) == #[trigger] is_run(walls, w, h, y, p) by {
            if 0 <= y < h && w > 0 {
                lemma_row_plates_are_runs(walls, w, h, y, rows[y], p);
            }
        }
        assert forall|k: int| 0 <= k < rects.len() implies is_wall_rect(walls, w, h, #[trigger] rects[k]) by {
            let r = rects[k];
            assert(is_stack(rows, r));
            assert forall|y: int| r.bottom <= y <= r.top implies #[trigger] is_run(walls, w, h, y, r.plate()) by {
                assert(row_has(rows, y, r.plate()));
            }
            assert(!row_has(rows, r.bottom - 1, r.plate()));
            assert(!row_has(rows, r.top + 1, r.plate()));
        }
        assert forall|y: int, p: Plate| #[trigger] is_run(walls, w, h, y, p) implies exists|k: int|
            0 <= k < rects.len() && (#[trigger] rects[k]).plate() == p && rects[k].bottom <= y
                <= rects[k].top by {
            assert(row_has(rows, y, p));
        }
        lemma_merged_disjoint(walls, w, h, rects@);
        assert forall|k: int, x: int, y: int|
            0 <= k < rects.len() && #[trigger] rects[k].covers(x, y) implies 0 <= x < w && 0 <= y < h
                && walls.contains((x, y)) by {
            assert(is_run(walls, w, h, y, rects[k].plate()));
        }
        assert forall|x: int, y: int|
            0 <= x < w && 0 <= y < h && #[trigger] walls.contains((x, y)) implies exists|k: int|
                0 <= k < rects.len() && #[trigger] rects[k].covers(x, y) by {
            let row = rows[y];
            assert(row_exact_at(walls, w, rows, y));
            let i = choose|i: int| 0 <= i < row.len() && (#[trigger] row[i]).holds(x);
            assert(row_has(rows, y, row[i]));
            let k = choose|k: int|
                0 <= k < rects.len() && (#[trigger] rects[k]).plate() == row[i] && rects[k].bottom <= y
                    <= rects[k].top;
            assert(rects[k].covers(x, y));
        }
        assert forall|k: int| 0 <= k < rects.len() implies (#[trigger] rects[k]).wf() by {
            assert(is_run(walls, w, h, rects[k].bottom as int, rects[k].plate()));
        }
    }
    rects
}

spec fn row_exact_at(walls: Set<(int, int)>, w: int, rows: Seq<Seq<Plate>>, y: int) -> bool {
    crate::plates::row_exact(walls, w, y, rows[y])
}

} // verus!
