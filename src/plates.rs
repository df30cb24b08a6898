use vstd::prelude::*;

use crate::geometry::{GridCoord, Plate, WallSet};

verus! {

/// `(left, right)` is a maximal run of wall cells of row `y`: every cell in it
/// is a wall, and the cells just outside it are not, or lie outside the
/// `w × h` region.
pub open spec fn is_run(walls: Set<(int, int)>, w: int, h: int, y: int, p: Plate) -> bool {
    &&& 0 <= y < h
    &&& 0 <= p.left <= p.right < w
    &&& forall|x: int| p.left <= x <= p.right ==> #[trigger] walls.contains((x, y))
    &&& (p.left == 0 || !walls.contains((p.left - 1, y)))
    &&& (p.right == w - 1 || !walls.contains((p.right + 1, y)))
}

/// The plates of row `y`, left to right: inside the region, separated by at
/// least one empty cell, and holding exactly the row's wall cells.
pub open spec fn row_exact(walls: Set<(int, int)>, w: int, y: int, row: Seq<Plate>) -> bool {
    &&& forall|i: int| 0 <= i < row.len() ==> 0 <= #[trigger] row[i].left <= row[i].right < w
    &&& forall|i: int, j: int|
        0 <= i < j < row.len() ==> #[trigger] row[i].right + 1 < #[trigger] row[j].left
    &&& forall|x: int|
        0 <= x < w ==> (walls.contains((x, y)) <==> exists|i: int|
            0 <= i < row.len() && (#[trigger] row[i]).holds(x))
}

/// The rows of plates of a `w × h` region, bottom row first.
pub open spec fn rows_exact(walls: Set<(int, int)>, w: int, h: int, rows: Seq<Seq<Plate>>) -> bool {
    &&& rows.len() == if w > 0 && h > 0 { h } else { 0 }
    &&& forall|y: int| 0 <= y < rows.len() ==> row_exact(walls, w, y, #[trigger] rows[y])
}

/// Within an exact row, the plates are precisely the maximal runs.
pub proof fn lemma_row_plates_are_runs(
    walls: Set<(int, int)>,
    w: int,
    h: int,
    y: int,
    row: Seq<Plate>,
    p: Plate,
)
    requires
        row_exact(walls, w, y, row),
        0 <= y < h,
    ensures
        row.contains(p) <==> is_run(walls, w, h, y, p),
{
    if row.contains(p) {
        let i = choose|i: int| 0 <= i < row.len() && row[i] == p;
        assert forall|x: int| p.left <= x <= p.right implies #[trigger] walls.contains((x, y)) by {
            assert(row[i].holds(x));
        }
        if p.left != 0 && walls.contains((p.left - 1, y)) {
            let j = choose|j: int| 0 <= j < row.len() && (#[trigger] row[j]).holds(p.left - 1);
            if j < i {
                assert(row[j].right + 1 < row[i].left);
            } else if j > i {
                assert(row[i].right + 1 < row[j].left);
            }
        }
        if p.right != w - 1 && walls.contains((p.right + 1, y)) {
            let j = choose|j: int| 0 <= j < row.len() && (#[trigger] row[j]).holds(p.right + 1);
            if j < i {
                assert(row[j].right + 1 < row[i].left);
            } else if j > i {
                assert(row[i].right + 1 < row[j].left);
            }
        }
    }
    if is_run(walls, w, h, y, p) {
        assert(walls.contains((p.left as int, y)));
        let i = choose|i: int| 0 <= i < row.len() && (#[trigger] row[i]).holds(p.left as int);
        let q = row[i];
        if q.left < p.left {
            assert(q.holds(p.left - 1));
        }
        if q.right < p.right {
            assert(walls.contains((q.right + 1, y)));
            let j = choose|j: int| 0 <= j < row.len() && (#[trigger] row[j]).holds(q.right + 1);
            if j < i {
                assert(row[j].right + 1 < row[i].left);
            } else if j > i {
                assert(row[i].right + 1 < row[j].left);
            }
        }
        if q.right > p.right {
            assert(q.holds(p.right + 1));
        }
        assert(row[i] == p);
    }
}

/// Collapses the wall cells of each row of a `width × height` region into
/// plates. Cells outside the region are ignored; a region of no width or no
/// height gives no rows.
pub fn combine_walls_into_plates(width: i32, height: i32, level_walls: &WallSet) -> (rows: Vec<
    Vec<Plate>,
>)
    ensures
        rows_exact(level_walls@, width as int, height as int, rows@.map_values(|r: Vec<Plate>| r@)),
{
    let mut plate_stack: Vec<Vec<Plate>> = Vec::new();
    if width <= 0 {
        assert(plate_stack@.map_values(|r: Vec<Plate>| r@) =~= Seq::<Seq<Plate>>::empty());
        return plate_stack;
    }
    let mut y: i32 = 0;
    while y < height
        invariant
            0 <= y,
            0 < width,
            y <= height || y == 0,
            plate_stack.len() == y,
            forall|yy: int|
                0 <= yy < y ==> row_exact(level_walls@, width as int, yy, #[trigger] plate_stack[yy]@),
        decreases height - y,
    {
        let row = combine_row(width, y, level_walls);
        plate_stack.push(row);
        y += 1;
    }
    assert(rows_exact(level_walls@, width as int, height as int, plate_stack@.map_values(|r: Vec<Plate>| r@)));
    plate_stack
}

/// The plates of row `y`, scanned left to right.
fn combine_row(width: i32, y: i32, level_walls: &WallSet) -> (row: Vec<Plate>)
    ensures
        row_exact(level_walls@, width as int, y as int, row@),
{
    let ghost walls = level_walls@;
    let mut row_plates: Vec<Plate> = Vec::new();
    let mut plate_start: Option<i32> = None;
    let mut x: i32 = 0;
    while x < width
        invariant
            0 <= x,
            x <= width || x == 0,
            walls == level_walls@,
            forall|i: int|
                0 <= i < row_plates.len() ==> 0 <= #[trigger] row_plates[i].left <= row_plates[i].right < x,
            forall|i: int, j: int|
                0 <= i < j < row_plates.len() ==> #[trigger] row_plates[i].right + 1
                    < #[trigger] row_plates[j].left,
            match plate_start {
                Some(s) => 0 <= s < x && (forall|i: int|
                    0 <= i < row_plates.len() ==> #[trigger] row_plates[i].right + 1 < s) && (forall|
                    xx: int,
                | s <= xx < x ==> #[trigger] walls.contains((xx, y as int))),
                None => forall|i: int|
                    0 <= i < row_plates.len() ==> #[trigger] row_plates[i].right + 1 < x,
            },
            forall|xx: int|
                0 <= xx < x ==> (walls.contains((xx, y as int)) <==> (exists|i: int|
                    0 <= i < row_plates.len() && (#[trigger] row_plates[i]).holds(xx)) || (
                plate_start is Some && plate_start->0 <= xx)),
        decreases width - x,
    {
        let is_wall = level_walls.contains(GridCoord { x, y });
        match plate_start {
            Some(s) => {
                if !is_wall {
                    let ghost prev = row_plates@;
                    row_plates.push(Plate { left: s, right: x - 1 });
                    plate_start = None;
                    proof {
                        lemma_close_plate(walls, y as int, prev, row_plates@, row_plates@.last(), s as int, x as int, x as int + 1);
                    }
                }
            },
            None => {
                if is_wall {
                    plate_start = Some(x);
                }
            },
        }
        x += 1;
    }
    // the column past the right edge counts as empty: it closes a plate that
    // reaches the edge
    if let Some(s) = plate_start {
        let ghost prev = row_plates@;
        row_plates.push(Plate { left: s, right: width - 1 });
        proof {
            lemma_close_plate(walls, y as int, prev, row_plates@, row_plates@.last(), s as int, width as int, width as int);
        }
    }
    row_plates
}

/// Closing the open plate `[s, x)` keeps the row's plates exact over the
/// columns before `upto`, where `upto` is `x + 1` if column `x` was scanned
/// (and is no wall), or `x` at the right edge.
proof fn lemma_close_plate(
    walls: Set<(int, int)>,
    y: int,
    prev: Seq<Plate>,
    row: Seq<Plate>,
    p: Plate,
    s: int,
    x: int,
    upto: int,
)
    requires
        0 <= s < x,
        upto == x || upto == x + 1,
        upto == x + 1 ==> !walls.contains((x, y)),
        row == prev.push(p),
        p.left == s,
        p.right == x - 1,
        forall|i: int| 0 <= i < prev.len() ==> #[trigger] prev[i].right + 1 < s,
        forall|xx: int| s <= xx < x ==> #[trigger] walls.contains((xx, y)),
        forall|xx: int|
            0 <= xx < x ==> (walls.contains((xx, y)) <==> (exists|i: int|
                0 <= i < prev.len() && (#[trigger] prev[i]).holds(xx)) || s <= xx),
    ensures
        forall|xx: int|
            0 <= xx < upto ==> (walls.contains((xx, y)) <==> exists|i: int|
                0 <= i < row.len() && (#[trigger] row[i]).holds(xx)),
{
    let n = prev.len() as int;
    assert forall|xx: int| 0 <= xx < upto implies (walls.contains((xx, y)) <==> exists|i: int|
        0 <= i < row.len() && (#[trigger] row[i]).holds(xx)) by {
        if exists|i: int| 0 <= i < row.len() && (#[trigger] row[i]).holds(xx) {
            let i = choose|i: int| 0 <= i < row.len() && (#[trigger] row[i]).holds(xx);
            if i < n {
                assert(prev[i].holds(xx));
            }
        }
        if xx < x {
            if exists|i: int| 0 <= i < prev.len() && (#[trigger] prev[i]).holds(xx) {
                let i = choose|i: int| 0 <= i < prev.len() && (#[trigger] prev[i]).holds(xx);
                assert(row[i].holds(xx));
            }
            if s <= xx {
                assert(row[n].holds(xx));
            }
        }
    }
}

} // verus!
