use vstd::prelude::*;

use crate::cover::{covers_exactly, merge_walls, merged_exactly, pairwise_disjoint};
use crate::geometry::{Rect, WallSet};

verus! {

/// The box of one static collision body in world units. Each value is twice
/// the true one, so that it stays an integer: the body's half-extents and
/// center are these values halved.
#[derive(Clone, Copy, Debug, PartialEq, Eq, Structural)]
pub struct ColliderShape {
    /// Twice the half-width, that is the full width.
    pub width: i128,
    /// Twice the half-height, that is the full height.
    pub height: i128,
    /// Twice the x coordinate of the center.
    pub center_x2: i128,
    /// Twice the y coordinate of the center.
    pub center_y2: i128,
}

/// The dimensions of a loaded region: its size in cells, and the size of one
/// cell in world units.
#[derive(Clone, Copy, Debug, PartialEq, Eq, Structural)]
pub struct LevelGrid {
    pub width: i32,
    pub height: i32,
    pub cell_size: i32,
}

#[derive(Clone, Copy, Debug, PartialEq, Eq, Structural)]
pub enum WallError {
    /// The region's level data was not loaded yet.
    LevelNotLoaded,
}

pub open spec fn shape_of(r: Rect, cell_size: int) -> ColliderShape {
    ColliderShape {
        width: ((r.right - r.left + 1) * cell_size) as i128,
        height: ((r.top - r.bottom + 1) * cell_size) as i128,
        center_x2: ((r.left + r.right + 1) * cell_size) as i128,
        center_y2: ((r.bottom + r.top + 1) * cell_size) as i128,
    }
}

/// The body that stands for rectangle `r`, with cells of `cell_size` world
/// units: its size is the rectangle's size in cells times `cell_size`, its
/// center the rectangle's center.
pub fn collider_for_rect(r: Rect, cell_size: i32) -> (s: ColliderShape)
    ensures
        s == shape_of(r, cell_size as int),
        s.width == (r.right - r.left + 1) * cell_size,
        s.height == (r.top - r.bottom + 1) * cell_size,
        s.center_x2 == (r.left + r.right + 1) * cell_size,
        s.center_y2 == (r.bottom + r.top + 1) * cell_size,
{
    let cs = cell_size as i128;
    let (left, right, top, bottom) = (r.left as i128, r.right as i128, r.top as i128, r.bottom as i128);
    assert(-0x2_0000_0000 <= right - left + 1 <= 0x2_0000_0000);
    assert(-0x2_0000_0000 <= left + right + 1 <= 0x2_0000_0000);
    assert(-0x2_0000_0000 <= top - bottom + 1 <= 0x2_0000_0000);
    assert(-0x2_0000_0000 <= bottom + top + 1 <= 0x2_0000_0000);
    proof {
        lemma_product_fits(right - left + 1, cs as int);
        lemma_product_fits(left + right + 1, cs as int);
        lemma_product_fits(top - bottom + 1, cs as int);
        lemma_product_fits(bottom + top + 1, cs as int);
    }
    ColliderShape {
        width: (right - left + 1) * cs,
        height: (top - bottom + 1) * cs,
        center_x2: (left + right + 1) * cs,
        center_y2: (bottom + top + 1) * cs,
    }
}

proof fn lemma_product_fits(a: int, b: int)
    requires
        -0x2_0000_0000 <= a <= 0x2_0000_0000,
        -0x8000_0000 <= b <= 0x8000_0000,
    ensures
        -0x1_0000_0000_0000_0000 <= a * b <= 0x1_0000_0000_0000_0000,
{
    assert(-0x1_0000_0000_0000_0000 <= a * b <= 0x1_0000_0000_0000_0000) by (nonlinear_arith)
        requires
            -0x2_0000_0000 <= a <= 0x2_0000_0000,
            -0x8000_0000 <= b <= 0x8000_0000,
    ;
}

/// One body for each rectangle, in the same order.
pub fn emit_colliders(rects: &Vec<Rect>, cell_size: i32) -> (shapes: Vec<ColliderShape>)
    ensures
        shapes@ == rects@.map_values(|r: Rect| shape_of(r, cell_size as int)),
{
    let mut shapes: Vec<ColliderShape> = Vec::new();
    let mut i: usize = 0;
    while i < rects.len()
        invariant
            i <= rects.len(),
            shapes@ == rects@.take(i as int).map_values(|r: Rect| shape_of(r, cell_size as int)),
        decreases rects.len() - i,
    {
        shapes.push(collider_for_rect(rects[i], cell_size));
        proof {
            assert(rects@.take(i + 1) == rects@.take(i as int).push(rects@[i as int]));
        }
        i += 1;
    }
    assert(rects@.take(rects.len() as int) == rects@);
    shapes
}

/// The bodies for the walls of one region: refused while the region's level
/// data is missing, else one body per merged rectangle. No walls give no
/// bodies.
pub fn region_colliders(level: Option<LevelGrid>, level_walls: &WallSet) -> (r: Result<
    Vec<ColliderShape>,
    WallError,
>)
    ensures
        level is None <==> r == Err::<Vec<ColliderShape>, WallError>(WallError::LevelNotLoaded),
        r is Ok ==> exists|rects: Seq<Rect>|
            #[trigger] merged_exactly(level_walls@, level->0.width as int, level->0.height as int, rects)
                && covers_exactly(level_walls@, level->0.width as int, level->0.height as int, rects)
                && pairwise_disjoint(rects) && r->Ok_0@ == rects.map_values(
                |q: Rect| shape_of(q, level->0.cell_size as int),
            ),
{
    match level {
        None => Err(WallError::LevelNotLoaded),
        Some(g) => {
            let rects = merge_walls(g.width, g.height, level_walls);
            let shapes = emit_colliders(&rects, g.cell_size);
            Ok(shapes)
        },
    }
}

} // verus!
