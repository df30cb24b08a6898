use vstd::prelude::*;

use std::collections::HashSet;

verus! {

broadcast use vstd::std_specs::hash::group_hash_axioms;

/// The address of one cell in a region's local grid.
#[derive(Clone, Copy, Debug, PartialEq, Eq, Structural, Hash)]
pub struct GridCoord {
    pub x: i32,
    pub y: i32,
}

impl GridCoord {
    pub open spec fn view(self) -> (int, int) {
        (self.x as int, self.y as int)
    }

    pub fn new(x: i32, y: i32) -> (r: GridCoord)
        ensures
            r.x == x,
            r.y == y,
    {
        GridCoord { x, y }
    }
}

/// A run of wall cells within one row, from `left` to `right` inclusive.
#[derive(Clone, Copy, Debug, PartialEq, Eq, Structural, Hash)]
pub struct Plate {
    pub left: i32,
    pub right: i32,
}

/// A rectangle of cells, bounds inclusive.
#[derive(Clone, Copy, Debug, PartialEq, Eq, Structural, Hash)]
pub struct Rect {
    pub left: i32,
    pub right: i32,
    pub top: i32,
    pub bottom: i32,
}

impl Plate {
    pub open spec fn holds(self, x: int) -> bool {
        self.left <= x <= self.right
    }
}

impl Rect {
    pub open spec fn covers(self, x: int, y: int) -> bool {
        self.left <= x <= self.right && self.bottom <= y <= self.top
    }

    /// The horizontal extent shared by every row of the rectangle.
    pub open spec fn plate(self) -> Plate {
        Plate { left: self.left, right: self.right }
    }

    pub fn plate_exec(&self) -> (p: Plate)
        ensures
            p == self.plate(),
    {
        Plate { left: self.left, right: self.right }
    }

    pub open spec fn wf(self) -> bool {
        self.left <= self.right && self.bottom <= self.top
    }
}

/// The key under which cell `(x, y)` is stored: both coordinates shifted to
/// be non-negative, packed into one integer.
pub open spec fn cell_key(x: int, y: int) -> int {
    (x + 0x8000_0000) * 0x1_0000_0000 + (y + 0x8000_0000)
}

/// Distinct cells have distinct keys.
proof fn lemma_cell_key_injective(x1: int, y1: int, x2: int, y2: int)
    requires
        i32::MIN <= x1 <= i32::MAX,
        i32::MIN <= y1 <= i32::MAX,
        i32::MIN <= x2 <= i32::MAX,
        i32::MIN <= y2 <= i32::MAX,
        cell_key(x1, y1) == cell_key(x2, y2),
    ensures
        x1 == x2,
        y1 == y2,
{
    let (a1, b1, a2, b2) = (x1 + 0x8000_0000, y1 + 0x8000_0000, x2 + 0x8000_0000, y2 + 0x8000_0000);
    assert(a1 == a2 && b1 == b2) by (nonlinear_arith)
        requires
            0 <= b1 < 0x1_0000_0000,
            0 <= b2 < 0x1_0000_0000,
            0 <= a1,
            0 <= a2,
            a1 * 0x1_0000_0000 + b1 == a2 * 0x1_0000_0000 + b2,
    {
        if a1 < a2 {
            assert(a1 * 0x1_0000_0000 + 0x1_0000_0000 <= a2 * 0x1_0000_0000);
        } else if a2 < a1 {
            assert(a2 * 0x1_0000_0000 + 0x1_0000_0000 <= a1 * 0x1_0000_0000);
        }
    }
}

/// The set of wall cells of one region.
pub struct WallSet {
    keys: HashSet<u64>,
}

impl View for WallSet {
    type V = Set<(int, int)>;

    closed spec fn view(&self) -> Set<(int, int)> {
        Set::new(
            |c: (int, int)|
                i32::MIN <= c.0 <= i32::MAX && i32::MIN <= c.1 <= i32::MAX && self.keys@.contains(
                    cell_key(c.0, c.1) as u64,
                ),
        )
    }
}

impl WallSet {
    fn key(c: GridCoord) -> (k: u64)
        ensures
            k == cell_key(c.x as int, c.y as int),
    {
        let kx = (c.x as i64 + 0x8000_0000) as u64;
        let ky = (c.y as i64 + 0x8000_0000) as u64;
        assert(kx * 0x1_0000_0000 + ky < 0x1_0000_0000 * 0x1_0000_0000) by (nonlinear_arith)
            requires
                kx < 0x1_0000_0000,
                ky < 0x1_0000_0000,
        ;
        kx * 0x1_0000_0000 + ky
    }

    pub fn new() -> (r: WallSet)
        ensures
            r@ == Set::<(int, int)>::empty(),
    {
        let r = WallSet { keys: HashSet::new() };
        assert(r@ =~= Set::<(int, int)>::empty());
        r
    }

    pub fn insert(&mut self, c: GridCoord)
        ensures
            final(self)@ == old(self)@.insert(c@),
    {
        let ghost before = self@;
        let k = WallSet::key(c);
        self.keys.insert(k);
        assert(self@ =~= before.insert(c@)) by {
            assert forall|d: (int, int)| #[trigger] self@.contains(d) implies before.insert(c@).contains(d) by {
                if cell_key(d.0, d.1) as u64 == k {
                    lemma_cell_key_injective(d.0, d.1, c.x as int, c.y as int);
                }
            }
        }
    }

    pub fn contains(&self, c: GridCoord) -> (r: bool)
        ensures
            r == self@.contains(c@),
    {
        let k = WallSet::key(c);
        self.keys.contains(&k)
    }
}

} // verus!
