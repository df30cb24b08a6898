use vstd::prelude::*;

use crate::cover::{is_wall_rect, lemma_wall_rect_unique, merged_exactly};
use crate::geometry::{Plate, Rect};
use crate::plates::is_run;

verus! {

/// Two merges of the same walls give the same rectangles, each once: the
/// result is fixed up to its order.
pub proof fn lemma_merge_idempotent(
    walls: Set<(int, int)>,
    w: int,
    h: int,
    a: Seq<Rect>,
    b: Seq<Rect>,
)
    requires
        merged_exactly(walls, w, h, a),
        merged_exactly(walls, w, h, b),
    ensures
        a.to_multiset() =~= b.to_multiset(),
{
    lemma_merged_within(walls, w, h, a, b);
    lemma_merged_within(walls, w, h, b, a);
    a.lemma_multiset_has_no_duplicates();
    b.lemma_multiset_has_no_duplicates();
    assert forall|r: Rect| a.to_multiset().count(r) == b.to_multiset().count(r) by {
        a.to_multiset_ensures();
        b.to_multiset_ensures();
    }
}

/// Every rectangle of one merge stands in any other merge of the same walls.
proof fn lemma_merged_within(walls: Set<(int, int)>, w: int, h: int, a: Seq<Rect>, b: Seq<Rect>)
    requires
        merged_exactly(walls, w, h, a),
        merged_exactly(walls, w, h, b),
    ensures
        forall|r: Rect| a.contains(r) ==> b.contains(r),
{
    assert forall|r: Rect| a.contains(r) implies b.contains(r) by {
        let k = choose|k: int| 0 <= k < a.len() && a[k] == r;
        assert(is_wall_rect(walls, w, h, a[k]));
        assert(is_run(walls, w, h, r.bottom as int, r.plate()));
        let j = choose|j: int|
            0 <= j < b.len() && (#[trigger] b[j]).plate() == r.plate() && b[j].bottom <= r.bottom
                <= b[j].top;
        lemma_wall_rect_unique(walls, w, h, r, b[j], r.bottom as int);
        assert(b[j] == r);
    }
}

/// A sequence without duplicates whose elements all equal `r`, and which
/// holds `r`, is `[r]`.
proof fn lemma_only(out: Seq<Rect>, r: Rect)
    requires
        out.no_duplicates(),
        out.contains(r),
        forall|k: int| 0 <= k < out.len() ==> #[trigger] out[k] == r,
    ensures
        out =~= seq![r],
{
    if out.len() > 1 {
        assert(out[0] == out[1]);
    }
}

/// No walls give no rectangles.
pub proof fn lemma_no_walls(w: int, h: int, out: Seq<Rect>)
    requires
        merged_exactly(Set::empty(), w, h, out),
    ensures
        out.len() == 0,
{
    if out.len() > 0 {
        let r = out[0];
        assert(is_wall_rect(Set::empty(), w, h, r));
        assert(is_run(Set::empty(), w, h, r.bottom as int, r.plate()));
        assert(Set::<(int, int)>::empty().contains((r.left as int, r.bottom as int)));
    }
}

/// A single wall cell inside the region gives the one-cell rectangle.
pub proof fn lemma_single_cell(x: i32, y: i32, w: i32, h: i32, out: Seq<Rect>)
    requires
        0 <= x < w,
        0 <= y < h,
        merged_exactly(set![(x as int, y as int)], w as int, h as int, out),
    ensures
        out =~= seq![Rect { left: x, right: x, top: y, bottom: y }],
{
    let walls = set![(x as int, y as int)];
    let r = Rect { left: x, right: x, top: y, bottom: y };
    let p = Plate { left: x, right: x };
    assert(is_run(walls, w as int, h as int, y as int, p));
    let k = choose|k: int|
        0 <= k < out.len() && (#[trigger] out[k]).plate() == p && out[k].bottom <= y <= out[k].top;
    assert forall|k: int| 0 <= k < out.len() implies #[trigger] out[k] == r by {
        let q = out[k];
        assert(is_wall_rect(walls, w as int, h as int, q));
        assert(is_run(walls, w as int, h as int, q.bottom as int, q.plate()));
        assert(walls.contains((q.left as int, q.bottom as int)));
        assert(walls.contains((q.right as int, q.bottom as int)));
        assert(is_run(walls, w as int, h as int, q.top as int, q.plate()));
        assert(walls.contains((q.left as int, q.top as int)));
    }
    assert(out[k] == r);
    lemma_only(out, r);
}

/// Walls on every cell of a non-empty `w × h` region give one rectangle
/// spanning the whole region.
pub proof fn lemma_full_block(w: i32, h: i32, out: Seq<Rect>)
    requires
        0 < w,
        0 < h,
        merged_exactly(
            Set::new(|c: (int, int)| 0 <= c.0 < w && 0 <= c.1 < h),
            w as int,
            h as int,
            out,
        ),
    ensures
        out =~= seq![Rect { left: 0, right: (w - 1) as i32, top: (h - 1) as i32, bottom: 0 }],
{
    let walls = Set::new(|c: (int, int)| 0 <= c.0 < w && 0 <= c.1 < h);
    let r = Rect { left: 0, right: (w - 1) as i32, top: (h - 1) as i32, bottom: 0 };
    let p = r.plate();
    assert forall|y: int| 0 <= y < h implies #[trigger] is_run(walls, w as int, h as int, y, p) by {
        assert forall|x: int| p.left <= x <= p.right implies #[trigger] walls.contains((x, y)) by {}
    }
    assert(is_wall_rect(walls, w as int, h as int, r));
    assert(is_run(walls, w as int, h as int, 0, p));
    let k = choose|k: int|
        0 <= k < out.len() && (#[trigger] out[k]).plate() == p && out[k].bottom <= 0 <= out[k].top;
    lemma_wall_rect_unique(walls, w as int, h as int, out[k], r, 0);
    assert(out[k] == r);
    assert forall|k: int| 0 <= k < out.len() implies #[trigger] out[k] == r by {
        let q = out[k];
        assert(is_wall_rect(walls, w as int, h as int, q));
        assert(is_run(walls, w as int, h as int, q.bottom as int, q.plate()));
        if q.left > 0 {
            assert(walls.contains((q.left - 1, q.bottom as int)));
        }
        if q.right < w - 1 {
            assert(walls.contains((q.right + 1, q.bottom as int)));
        }
        lemma_wall_rect_unique(walls, w as int, h as int, q, r, q.bottom as int);
    }
    lemma_only(out, r);
}

} // verus!
