use vstd::prelude::*;

use crate::geometry::{Plate, Rect};

verus! {

/// Row `y` exists and holds plate `p`.
pub open spec fn row_has(rows: Seq<Seq<Plate>>, y: int, p: Plate) -> bool {
    0 <= y < rows.len() && rows[y].contains(p)
}

/// `r` is a maximal vertical stack of one plate: every row from `bottom` to
/// `top` holds `r.plate()`, and neither the row below nor the row above does.
pub open spec fn is_stack(rows: Seq<Seq<Plate>>, r: Rect) -> bool {
    &&& 0 <= r.bottom <= r.top < rows.len()
    &&& forall|y: int| r.bottom <= y <= r.top ==> #[trigger] row_has(rows, y, r.plate())
    &&& !row_has(rows, r.bottom - 1, r.plate())
    &&& !row_has(rows, r.top + 1, r.plate())
}

/// `out` lists every maximal stack of `rows` exactly once, and nothing else.
pub open spec fn stacks_exact(rows: Seq<Seq<Plate>>, out: Seq<Rect>) -> bool {
    &&& forall|k: int| 0 <= k < out.len() ==> is_stack(rows, #[trigger] out[k])
    &&& forall|y: int, p: Plate|
        #[trigger] row_has(rows, y, p) ==> exists|k: int|
            0 <= k < out.len() && (#[trigger] out[k]).plate() == p && out[k].bottom <= y
                <= out[k].top
    &&& out.no_duplicates()
}

/// The plates of a row are ordered left to right and do not overlap.
pub open spec fn row_wf(row: Seq<Plate>) -> bool {
    &&& forall|i: int| 0 <= i < row.len() ==> (#[trigger] row[i]).left <= row[i].right
    &&& forall|i: int, j: int| 0 <= i < j < row.len() ==> #[trigger] row[i].right < #[trigger] row[j].left
}

pub open spec fn rows_view(plate_stack: Seq<Vec<Plate>>) -> Seq<Seq<Plate>> {
    plate_stack.map_values(|r: Vec<Plate>| r@)
}

/// Rectangles whose plates are ordered left to right without overlap.
pub open spec fn plates_ordered(v: Seq<Rect>) -> bool {
    &&& forall|i: int| 0 <= i < v.len() ==> (#[trigger] v[i]).left <= v[i].right
    &&& forall|i: int, j: int| 0 <= i < j < v.len() ==> #[trigger] v[i].right < #[trigger] v[j].left
}

/// Looks for plate `p` in `row` from position `from` on, every plate before
/// `from` lying left of `p`. Returns where the search stopped, all plates
/// before it still lying left of `p`, and whether `p` is in the row.
fn seek_plate(row: &Vec<Plate>, from: usize, p: Plate) -> (r: (usize, bool))
    requires
        from <= row.len(),
        row_wf(row@),
        forall|i: int| 0 <= i < from ==> (#[trigger] row[i]).left < p.left,
    ensures
        from <= r.0 <= row.len(),
        forall|i: int| 0 <= i < r.0 ==> (#[trigger] row[i]).left < p.left,
        r.1 == row@.contains(p),
{
    let mut k: usize = from;
    while k < row.len() && row[k].left < p.left
        invariant
            from <= k <= row.len(),
            forall|i: int| 0 <= i < k ==> (#[trigger] row[i]).left < p.left,
        decreases row.len() - k,
    {
        k += 1;
    }
    let found = k < row.len() && row[k].left == p.left && row[k].right == p.right;
    proof {
        if found {
            assert(row[k as int] == p);
        } else {
            assert forall|i: int| 0 <= i < row.len() implies row[i] != p by {
                if i > k {
                    assert(row[k as int].right < row[i].left);
                }
            }
        }
    }
    (k, found)
}

/// Looks for the rectangle of plate `p` in `open` from position `from` on,
/// every rectangle before `from` lying left of `p`. Returns where the search
/// stopped, all rectangles before it still lying left of `p`, and the
/// position of the rectangle, if there is one.
fn seek_open(open: &Vec<Rect>, from: usize, p: Plate) -> (r: (usize, Option<usize>))
    requires
        from <= open.len(),
        plates_ordered(open@),
        forall|i: int| 0 <= i < from ==> (#[trigger] open[i]).left < p.left,
    ensures
        from <= r.0 <= open.len(),
        forall|i: int| 0 <= i < r.0 ==> (#[trigger] open[i]).left < p.left,
        match r.1 {
            Some(i) => i < open.len() && open[i as int].plate() == p,
            None => forall|i: int| 0 <= i < open.len() ==> (#[trigger] open[i]).plate() != p,
        },
{
    let mut k: usize = from;
    while k < open.len() && open[k].left < p.left
        invariant
            from <= k <= open.len(),
            forall|i: int| 0 <= i < k ==> (#[trigger] open[i]).left < p.left,
        decreases open.len() - k,
    {
        k += 1;
    }
    if k < open.len() && open[k].left == p.left && open[k].right == p.right {
        (k, Some(k))
    } else {
        proof {
            assert forall|i: int| 0 <= i < open.len() implies (#[trigger] open[i]).plate() != p by {
                if i > k {
                    assert(open[k as int].right < open[i].left);
                }
            }
        }
        (k, None)
    }
}

/// For each open rectangle, whether its plate recurs in `row`.
fn plates_recurring(open: &Vec<Rect>, row: &Vec<Plate>) -> (recurs: Vec<bool>)
    requires
        row_wf(row@),
        plates_ordered(open@),
    ensures
        recurs.len() == open.len(),
        forall|i: int| 0 <= i < open.len() ==> #[trigger] recurs[i] == row@.contains(open[i].plate()),
{
    let mut recurs: Vec<bool> = Vec::new();
    let mut seen: usize = 0;
    let mut i: usize = 0;
    while i < open.len()
        invariant
            i <= open.len(),
            seen <= row.len(),
            row_wf(row@),
            plates_ordered(open@),
            recurs.len() == i,
            forall|ii: int| 0 <= ii < i ==> #[trigger] recurs[ii] == row@.contains(open[ii].plate()),
            i < open.len() ==> forall|k: int| 0 <= k < seen ==> (#[trigger] row[k]).left < open[i as int].left,
        decreases open.len() - i,
    {
        let (stop, found) = seek_plate(row, seen, open[i].plate_exec());
        seen = stop;
        if i + 1 < open.len() {
            assert(open[i as int].right < open[i + 1].left);
        }
        recurs.push(found);
        i += 1;
    }
    recurs
}

/// A stack that may still grow upward: every row from `bottom` to `top` holds
/// its plate, and the row below `bottom` does not.
pub open spec fn is_growing(rows: Seq<Seq<Plate>>, r: Rect) -> bool {
    &&& 0 <= r.bottom <= r.top
    &&& forall|y: int| r.bottom <= y <= r.top ==> #[trigger] row_has(rows, y, r.plate())
    &&& !row_has(rows, r.bottom - 1, r.plate())
}

/// Grows the plates of consecutive rows into rectangles: a plate that recurs
/// with the same extent in the next row extends its rectangle upward, any
/// other plate starts a new one. Each rectangle is listed once it stops
/// growing; the result holds every maximal stack of equal plates once.
pub fn fill_wall_rects(plate_stack: &Vec<Vec<Plate>>) -> (wall_rects: Vec<Rect>)
    requires
        plate_stack.len() <= i32::MAX,
        forall|y: int| 0 <= y < plate_stack.len() ==> row_wf(#[trigger] plate_stack[y]@),
    ensures
        stacks_exact(rows_view(plate_stack@), wall_rects@),
{
    let ghost rows = rows_view(plate_stack@);
    let n = plate_stack.len();
    let empty: Vec<Plate> = Vec::new();
    let mut wall_rects: Vec<Rect> = Vec::new();
    // the rectangles still growing: one for each plate of the previous row,
    // found again by the plate's extent
    let mut previous_rects: Vec<Rect> = Vec::new();
    let mut y: usize = 0;
    // one pass more than there are rows: the empty row past the top closes
    // the rectangles that reach it
    while y <= n
        invariant
            n == plate_stack.len() == rows.len(),
            n <= i32::MAX,
            y <= n + 1,
            empty@ == Seq::<Plate>::empty(),
            rows == rows_view(plate_stack@),
            forall|yy: int| 0 <= yy < n ==> row_wf(#[trigger] plate_stack[yy]@),
            forall|i: int|
                0 <= i < previous_rects.len() ==> (#[trigger] previous_rects[i]).top == y - 1
                    && is_growing(rows, previous_rects[i]),
            forall|p: Plate|
                #[trigger] row_has(rows, y - 1, p) ==> exists|i: int|
                    0 <= i < previous_rects.len() && (#[trigger] previous_rects[i]).plate() == p,
            forall|i: int, j: int|
                0 <= i < j < previous_rects.len() ==> (#[trigger] previous_rects[i]).plate()
                    != (#[trigger] previous_rects[j]).plate(),
            plates_ordered(previous_rects@),
            forall|k: int|
                0 <= k < wall_rects.len() ==> is_stack(rows, #[trigger] wall_rects[k])
                    && wall_rects[k].top < y - 1,
            wall_rects@.no_duplicates(),
            forall|t: int, p: Plate|
                t < y && #[trigger] row_has(rows, t, p) ==> (exists|k: int|
                    0 <= k < wall_rects.len() && (#[trigger] wall_rects[k]).plate() == p
                        && wall_rects[k].bottom <= t <= wall_rects[k].top) || (exists|i: int|
                    0 <= i < previous_rects.len() && (#[trigger] previous_rects[i]).plate() == p
                        && previous_rects[i].bottom <= t),
        decreases n + 1 - y,
    {
        let row: &Vec<Plate> = if y < n {
            &plate_stack[y]
        } else {
            &empty
        };
        proof {
            if y < n {
                assert(rows[y as int] == plate_stack@[y as int]@);
                assert(row@ == rows[y as int]);
            } else {
                assert(row@ =~= Seq::<Plate>::empty());
            }
            assert(forall|p: Plate| row@.contains(p) == row_has(rows, y as int, p));
            assert(row_wf(row@));
        }

        // the rectangles whose plate does not recur in this row are done
        let recurs = plates_recurring(&previous_rects, row);
        let ghost closed_before = wall_rects@;
        let mut i: usize = 0;
        while i < previous_rects.len()
            invariant
                0 <= i <= previous_rects.len(),
                recurs.len() == previous_rects.len(),
                forall|i: int|
                    0 <= i < recurs.len() ==> #[trigger] recurs[i] == row@.contains(
                        previous_rects[i].plate(),
                    ),
                forall|p: Plate| row@.contains(p) == row_has(rows, y as int, p),
                forall|i: int|
                    0 <= i < previous_rects.len() ==> (#[trigger] previous_rects[i]).top == y - 1
                        && is_growing(rows, previous_rects[i]),
                forall|i: int, j: int|
                    0 <= i < j < previous_rects.len() ==> (#[trigger] previous_rects[i]).plate()
                        != (#[trigger] previous_rects[j]).plate(),
                y <= n,
                rows.len() == n,
                closed_before.len() <= wall_rects.len(),
                forall|k: int| 0 <= k < closed_before.len() ==> wall_rects[k] == closed_before[k],
                forall|k: int|
                    0 <= k < closed_before.len() ==> #[trigger] closed_before[k].top < y - 1,
                forall|k: int|
                    closed_before.len() <= k < wall_rects.len() ==> exists|ii: int|
                        0 <= ii < i && #[trigger] wall_rects[k] == previous_rects[ii],
                forall|k: int| 0 <= k < wall_rects.len() ==> is_stack(rows, #[trigger] wall_rects[k]),
                wall_rects@.no_duplicates(),
                forall|ii: int|
                    0 <= ii < i ==> row@.contains((#[trigger] previous_rects[ii]).plate()) || exists|
                        k: int,
                    | 0 <= k < wall_rects.len() && wall_rects[k] == previous_rects[ii],
            decreases previous_rects.len() - i,
        {
            if !recurs[i] {
                let ghost before = wall_rects@;
                proof {
                    assert forall|k: int| 0 <= k < before.len() implies before[k] != previous_rects[i as int] by {
                        if k >= closed_before.len() {
                            let ii = choose|ii: int| 0 <= ii < i && #[trigger] wall_rects[k] == previous_rects[ii];
                            assert(previous_rects[ii].plate() != previous_rects[i as int].plate());
                        } else {
                            assert(closed_before[k].top < y - 1);
                        }
                    }
                }
                wall_rects.push(previous_rects[i]);
                proof {
                    let r = previous_rects[i as int];
                    assert(r.top + 1 == y);
                    assert(!row_has(rows, r.top + 1, r.plate()));
                    assert(row_has(rows, r.top as int, r.plate()));
                    assert(is_stack(rows, r));
                    assert forall|k1: int, k2: int| 0 <= k1 < k2 < wall_rects.len() implies wall_rects[k1] != wall_rects[k2] by {
                        if k2 < before.len() {
                            assert(before[k1] == wall_rects[k1] && before[k2] == wall_rects[k2]);
                        }
                    }
                    assert(wall_rects@[wall_rects.len() - 1] == r);
                    assert forall|ii: int| 0 <= ii < i + 1 implies row@.contains((#[trigger] previous_rects[ii]).plate()) || exists|
                        k: int,
                    | 0 <= k < wall_rects.len() && wall_rects[k] == previous_rects[ii] by {
                        if ii < i && !row@.contains(previous_rects[ii].plate()) {
                            let k = choose|k: int| 0 <= k < before.len() && before[k] == previous_rects[ii];
                            assert(wall_rects[k] == before[k]);
                        }
                    }
                    assert forall|k: int|
                        closed_before.len() <= k < wall_rects.len() implies exists|ii: int|
                            0 <= ii < i + 1 && #[trigger] wall_rects[k] == previous_rects[ii] by {
                        if k < before.len() {
                            let ii = choose|ii: int| 0 <= ii < i && #[trigger] before[k] == previous_rects[ii];
                            assert(wall_rects[k] == previous_rects[ii]);
                        }
                    }
                }
            }
            i += 1;
        }

        // every plate of this row continues its rectangle or starts one
        let mut current_rects: Vec<Rect> = Vec::new();
        let mut j: usize = 0;
        let mut seen: usize = 0;
        while j < row.len()
            invariant
                0 <= j <= row.len(),
                seen <= previous_rects.len(),
                row_wf(row@),
                plates_ordered(previous_rects@),
                j < row.len() ==> forall|k: int|
                    0 <= k < seen ==> (#[trigger] previous_rects[k]).left < row[j as int].left,
                y < n || row.len() == 0,
                y <= n,
                rows.len() == n,
                n <= i32::MAX,
                forall|p: Plate| row@.contains(p) == row_has(rows, y as int, p),
                forall|i: int|
                    0 <= i < previous_rects.len() ==> (#[trigger] previous_rects[i]).top == y - 1
                        && is_growing(rows, previous_rects[i]),
                current_rects.len() == j,
                forall|jj: int|
                    0 <= jj < j ==> (#[trigger] current_rects[jj]).plate() == row[jj]
                        && current_rects[jj].top == y && is_growing(rows, current_rects[jj]),
                forall|jj: int, i: int|
                    0 <= jj < j && 0 <= i < previous_rects.len() && (#[trigger] current_rects[jj]).plate()
                        == (#[trigger] previous_rects[i]).plate() ==> current_rects[jj].bottom
                        == previous_rects[i].bottom,
                forall|i: int, j: int|
                    0 <= i < j < previous_rects.len() ==> (#[trigger] previous_rects[i]).plate()
                        != (#[trigger] previous_rects[j]).plate(),
                forall|p: Plate|
                    #[trigger] row_has(rows, y - 1, p) ==> exists|i: int|
                        0 <= i < previous_rects.len() && (#[trigger] previous_rects[i]).plate() == p,
            decreases row.len() - j,
        {
            let plate = row[j];
            assert(row@.contains(plate));
            let y32 = y as i32;
            let (stop, found) = seek_open(&previous_rects, seen, plate);
            seen = stop;
            if j + 1 < row.len() {
                assert(row[j as int].right < row[j + 1].left);
            }
            match found {
                Some(k) => {
                    let prev = previous_rects[k];
                    current_rects.push(Rect { top: y32, ..prev });
                    proof {
                        let r = current_rects@[j as int];
                        assert(r.plate() == prev.plate());
                        assert forall|t: int| r.bottom <= t <= r.top implies #[trigger] row_has(rows, t, r.plate()) by {
                            if t < r.top {
                                assert(row_has(rows, t, prev.plate()));
                            }
                        }
                    }
                },
                None => {
                    current_rects.push(Rect { left: plate.left, right: plate.right, top: y32, bottom: y32 });
                    proof {
                        let r = current_rects@[j as int];
                        assert(r.plate() == plate);
                        assert(row_has(rows, y as int, r.plate()));
                        if row_has(rows, y - 1, plate) {
                            let i = choose|i: int|
                                0 <= i < previous_rects.len() && (#[trigger] previous_rects[i]).plate() == plate;
                        }
                    }
                },
            }
            j += 1;
        }
        proof {
            assert forall|i: int, j: int|
                0 <= i < j < current_rects.len() implies (#[trigger] current_rects[i]).plate()
                != (#[trigger] current_rects[j]).plate() by {
                assert(row[i].right < row[j].left);
            }
            assert forall|i: int, j: int|
                0 <= i < j < current_rects.len() implies #[trigger] current_rects[i].right
                < #[trigger] current_rects[j].left by {
                assert(row[i].right < row[j].left);
            }
            assert forall|i: int| 0 <= i < current_rects.len() implies (#[trigger] current_rects[i]).left
                <= current_rects[i].right by {
                assert(row[i].left <= row[i].right);
            }
            assert forall|p: Plate| #[trigger] row_has(rows, y as int, p) implies exists|i: int|
                0 <= i < current_rects.len() && (#[trigger] current_rects[i]).plate() == p by {
                let jj = choose|jj: int| 0 <= jj < row.len() && row[jj] == p;
                assert(current_rects[jj].plate() == p);
            }
            assert forall|t: int, p: Plate|
                t < y + 1 && #[trigger] row_has(rows, t, p) implies (exists|k: int|
                    0 <= k < wall_rects.len() && (#[trigger] wall_rects[k]).plate() == p
                        && wall_rects[k].bottom <= t <= wall_rects[k].top) || (exists|i: int|
                    0 <= i < current_rects.len() && (#[trigger] current_rects[i]).plate() == p
                        && current_rects[i].bottom <= t) by {
                if t == y {
                    let jj = choose|jj: int| 0 <= jj < row.len() && row[jj] == p;
                    assert(current_rects[jj].plate() == p);
                } else if exists|k: int|
                    0 <= k < closed_before.len() && (#[trigger] closed_before[k]).plate() == p
                        && closed_before[k].bottom <= t <= closed_before[k].top {
                    let k = choose|k: int|
                        0 <= k < closed_before.len() && (#[trigger] closed_before[k]).plate() == p
                            && closed_before[k].bottom <= t <= closed_before[k].top;
                    assert(wall_rects[k] == closed_before[k]);
                } else {
                    let i = choose|i: int|
                        0 <= i < previous_rects.len() && (#[trigger] previous_rects[i]).plate() == p
                            && previous_rects[i].bottom <= t;
                    if row@.contains(p) {
                        let jj = choose|jj: int| 0 <= jj < row.len() && row[jj] == p;
                        assert(current_rects[jj].plate() == previous_rects[i].plate());
                    } else {
                        let k = choose|k: int| 0 <= k < wall_rects.len() && wall_rects[k] == previous_rects[i];
                        assert(wall_rects[k].plate() == p);
                    }
                }
            }
            assert forall|k: int| 0 <= k < wall_rects.len() implies #[trigger] wall_rects[k].top < y as int + 1 - 1 by {
                if k >= closed_before.len() {
                    let ii = choose|ii: int| 0 <= ii < i && #[trigger] wall_rects[k] == previous_rects[ii];
                    assert(previous_rects[ii].top == y - 1);
                } else {
                    assert(wall_rects[k] == closed_before[k]);
                    assert(closed_before[k].top < y - 1);
                }
            }
        }
        previous_rects = current_rects;
        y += 1;
    }
    proof {
        assert forall|y: int, p: Plate| #[trigger] row_has(rows, y, p) implies exists|k: int|
            0 <= k < wall_rects.len() && (#[trigger] wall_rects[k]).plate() == p && wall_rects[k].bottom <= y
                <= wall_rects[k].top by {
            if previous_rects.len() > 0 {
                assert(row_has(rows, n as int, previous_rects[0].plate()));
            }
        }
    }
    wall_rects
}

} // verus!
