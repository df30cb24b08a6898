//! Turns the wall cells of a tile grid into a small set of axis-aligned
//! rectangles, one static collision body each.
//!
//! Each row's wall cells are first collapsed into maximal runs ("plates");
//! plates of equal extent in consecutive rows are then stacked into
//! rectangles. The rectangles cover the walls exactly and never overlap.

mod colliders;
mod cover;
mod geometry;
mod laws;
mod merge;
mod plates;
mod regions;

pub use colliders::{
    collider_for_rect, emit_colliders, region_colliders, shape_of, ColliderShape, LevelGrid,
    WallError,
};
pub use cover::{
    covers_exactly, is_wall_rect, lemma_merged_disjoint, lemma_runs_meet, lemma_wall_rect_unique,
    merge_walls, merged_exactly, pairwise_disjoint,
};
pub use geometry::{GridCoord, Plate, Rect, WallSet};
pub use laws::{lemma_full_block, lemma_merge_idempotent, lemma_no_walls, lemma_single_cell};
pub use merge::{fill_wall_rects, is_growing, is_stack, row_has, row_wf, rows_view, stacks_exact};
pub use plates::{combine_walls_into_plates, is_run, lemma_row_plates_are_runs, row_exact, rows_exact};
pub use regions::{lists, owns_wall, parse_level_to_wall, region_of, RegionWalls, WallLocations};
