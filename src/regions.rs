use vstd::prelude::*;

use std::collections::HashMap;

use crate::geometry::{GridCoord, WallSet};

verus! {

broadcast use vstd::std_specs::hash::group_hash_axioms;

/// The wall cells of one region.
pub struct RegionWalls {
    pub region: u64,
    pub walls: WallSet,
}

/// Wall cells grouped by the region that owns them, and the cells whose
/// container resolves to no region.
pub struct WallLocations {
    pub regions: Vec<RegionWalls>,
    pub unresolved: Vec<GridCoord>,
}

/// The region that owns the container of wall `e`, if any.
pub open spec fn region_of(containers: Map<u64, u64>, e: (u64, GridCoord)) -> Option<u64> {
    if containers.contains_key(e.0) {
        Some(containers[e.0])
    } else {
        None
    }
}

/// Some wall of `cells` belongs to `region`.
pub open spec fn owns_wall(containers: Map<u64, u64>, cells: Seq<(u64, GridCoord)>, region: u64) -> bool {
    exists|k: int| 0 <= k < cells.len() && region_of(containers, #[trigger] cells[k]) == Some(region)
}

/// Some cell of `v` is `c`.
pub open spec fn lists(v: Seq<GridCoord>, c: (int, int)) -> bool {
    exists|i: int| 0 <= i < v.len() && #[trigger] v[i]@ == c
}

fn lookup(containers: &HashMap<u64, u64>, container: u64) -> (r: Option<u64>)
    ensures
        r == (if containers@.contains_key(container) {
            Some(containers@[container])
        } else {
            None::<u64>
        }),
{
    match containers.get(&container) {
        Some(v) => Some(*v),
        None => None,
    }
}

/// Groups newly seen wall cells by owning region. Each wall comes with the
/// id of its direct container; `containers` maps a container to its region.
/// Every region that owns a wall gets one entry holding exactly its walls;
/// walls whose container maps to no region are listed apart.
pub fn parse_level_to_wall(wall_cells: &Vec<(u64, GridCoord)>, containers: &HashMap<u64, u64>) -> (r:
    WallLocations)
    ensures
        forall|g1: int, g2: int|
            0 <= g1 < g2 < r.regions.len() ==> #[trigger] r.regions[g1].region
                != #[trigger] r.regions[g2].region,
        forall|g: int|
            0 <= g < r.regions.len() ==> owns_wall(containers@, wall_cells@, #[trigger] r.regions[g].region),
        forall|g: int, c: (int, int)|
            0 <= g < r.regions.len() ==> (#[trigger] r.regions[g].walls@.contains(c) <==> exists|k: int|
                0 <= k < wall_cells.len() && (#[trigger] wall_cells[k]).1@ == c && region_of(
                    containers@,
                    wall_cells[k],
                ) == Some(r.regions[g].region)),
        forall|k: int|
            0 <= k < wall_cells.len() && containers@.contains_key((#[trigger] wall_cells[k]).0)
                ==> exists|g: int|
                0 <= g < r.regions.len() && r.regions[g].region == containers@[wall_cells[k].0],
        forall|c: (int, int)|
            #[trigger] lists(r.unresolved@, c) <==> exists|
                k: int,
            |
                0 <= k < wall_cells.len() && (#[trigger] wall_cells[k]).1@ == c && region_of(
                    containers@,
                    wall_cells[k],
                ) is None,
{
    let n = wall_cells.len();
    let mut owners: Vec<Option<u64>> = Vec::new();
    let mut ids: Vec<u64> = Vec::new();
    let mut unresolved: Vec<GridCoord> = Vec::new();
    let mut k: usize = 0;
    while k < n
        invariant
            n == wall_cells.len(),
            k <= n,
            owners.len() == k,
            forall|j: int| 0 <= j < k ==> #[trigger] owners[j] == region_of(containers@, wall_cells[j]),
            forall|a: int, b: int| 0 <= a < b < ids.len() ==> #[trigger] ids[a] != #[trigger] ids[b],
            forall|j: int|
                0 <= j < k && (#[trigger] owners[j]) is Some ==> ids@.contains(owners[j]->0),
            forall|a: int| 0 <= a < ids.len() ==> exists|j: int| 0 <= j < k && #[trigger] owners[j] == Some(#[trigger] ids[a]),
            forall|c: (int, int)|
                #[trigger] lists(unresolved@, c) <==> exists|
                    j: int,
                | 0 <= j < k && (#[trigger] wall_cells[j]).1@ == c && region_of(containers@, wall_cells[j]) is None,
        decreases n - k,
    {
        let (container, cell) = wall_cells[k];
        let owner = lookup(containers, container);
        assert(owner == region_of(containers@, wall_cells[k as int]));
        let ghost old_ids = ids@;
        let ghost old_unresolved = unresolved@;
        let ghost old_owners = owners@;
        match owner {
            Some(region) => {
                if !contains_id(&ids, region) {
                    ids.push(region);
                    assert(ids[ids.len() - 1] == region);
                }
            },
            None => {
                unresolved.push(cell);
            },
        }
        owners.push(owner);
        proof {
            assert forall|a: int| 0 <= a < ids.len() implies exists|j: int| 0 <= j < k + 1 && #[trigger] owners[j] == Some(#[trigger] ids[a]) by {
                if a < old_ids.len() {
                    let j = choose|j: int| 0 <= j < k && #[trigger] old_owners[j] == Some(#[trigger] old_ids[a]);
                    assert(owners[j] == old_owners[j]);
                    assert(owners[j] == Some(ids[a]));
                } else {
                    assert(owners[k as int] == Some(ids[a]));
                }
            }
            assert forall|j: int| 0 <= j < k + 1 && (#[trigger] owners[j]) is Some implies ids@.contains(owners[j]->0) by {
                if j < k {
                    let i = choose|i: int| 0 <= i < old_ids.len() && old_ids[i] == owners[j]->0;
                    assert(ids[i] == old_ids[i]);
                }
            }
            assert forall|c: (int, int)|
                #[trigger] lists(unresolved@, c) <==> exists|
                    j: int,
                | 0 <= j < k + 1 && (#[trigger] wall_cells[j]).1@ == c && region_of(containers@, wall_cells[j]) is None by {
                if lists(unresolved@, c) {
                    let i = choose|i: int| 0 <= i < unresolved.len() && #[trigger] unresolved[i]@ == c;
                    if i < old_unresolved.len() {
                        assert(old_unresolved[i]@ == c);
                        assert(lists(old_unresolved, c));
                    } else {
                        assert(wall_cells[k as int].1@ == c);
                    }
                }
                if exists|j: int| 0 <= j < k + 1 && (#[trigger] wall_cells[j]).1@ == c && region_of(containers@, wall_cells[j]) is None {
                    let j = choose|j: int| 0 <= j < k + 1 && (#[trigger] wall_cells[j]).1@ == c && region_of(containers@, wall_cells[j]) is None;
                    if j < k {
                        assert(lists(old_unresolved, c));
                        let i = choose|i: int| 0 <= i < old_unresolved.len() && #[trigger] old_unresolved[i]@ == c;
                        assert(unresolved[i]@ == c);
                    } else {
                        assert(unresolved[unresolved.len() - 1]@ == c);
                    }
                }
            }
        }
        k += 1;
    }

    let mut regions: Vec<RegionWalls> = Vec::new();
    let mut g: usize = 0;
    while g < ids.len()
        invariant
            n == wall_cells.len(),
            owners.len() == n,
            forall|j: int| 0 <= j < n ==> #[trigger] owners[j] == region_of(containers@, wall_cells[j]),
            g <= ids.len(),
            regions.len() == g,
            forall|j: int|
                0 <= j < n && (#[trigger] owners[j]) is Some ==> ids@.contains(owners[j]->0),
            forall|a: int, b: int| 0 <= a < b < ids.len() ==> #[trigger] ids[a] != #[trigger] ids[b],
            forall|a: int| 0 <= a < g ==> #[trigger] regions[a].region == ids[a],
            forall|a: int, c: (int, int)|
                0 <= a < g ==> (#[trigger] regions[a].walls@.contains(c) <==> exists|j: int|
                    0 <= j < n && (#[trigger] wall_cells[j]).1@ == c && owners[j] == Some(ids[a])),
        decreases ids.len() - g,
    {
        let region = ids[g];
        let mut walls = WallSet::new();
        let mut j: usize = 0;
        while j < n
            invariant
                n == wall_cells.len(),
                owners.len() == n,
                j <= n,
                forall|c: (int, int)|
                    #[trigger] walls@.contains(c) <==> exists|i: int|
                        0 <= i < j && (#[trigger] wall_cells[i]).1@ == c && owners[i] == Some(region),
            decreases n - j,
        {
            let ghost before = walls@;
            if owners[j] == Some(region) {
                walls.insert(wall_cells[j].1);
            }
            proof {
                assert forall|c: (int, int)|
                    #[trigger] walls@.contains(c) <==> exists|i: int|
                        0 <= i < j + 1 && (#[trigger] wall_cells[i]).1@ == c && owners[i] == Some(region) by {
                    if before.contains(c) {
                        let i = choose|i: int|
                            0 <= i < j && (#[trigger] wall_cells[i]).1@ == c && owners[i] == Some(region);
                    }
                }
            }
            j += 1;
        }
        regions.push(RegionWalls { region, walls });
        g += 1;
    }
    let r = WallLocations { regions, unresolved };
    proof {
        assert forall|a: int| 0 <= a < r.regions.len() implies owns_wall(containers@, wall_cells@, #[trigger] r.regions[a].region) by {
            let j = choose|j: int| 0 <= j < n && #[trigger] owners[j] == Some(#[trigger] ids[a]);
            assert(region_of(containers@, wall_cells[j]) == Some(r.regions[a].region));
        }
        assert forall|k: int|
            0 <= k < wall_cells.len() && containers@.contains_key((#[trigger] wall_cells[k]).0)
                implies exists|a: int|
                0 <= a < r.regions.len() && r.regions[a].region == containers@[wall_cells[k].0] by {
            assert(owners[k] is Some);
            assert(owners[k] == region_of(containers@, wall_cells[k]));
            assert(ids@.contains(owners[k]->0));
            let a = choose|a: int| 0 <= a < ids.len() && ids[a] == owners[k]->0;
            assert(r.regions[a].region == ids[a]);
            assert(region_of(containers@, wall_cells[k]) == Some(r.regions[a].region));
        }
        assert forall|g1: int, g2: int|
            0 <= g1 < g2 < r.regions.len() implies #[trigger] r.regions[g1].region
                != #[trigger] r.regions[g2].region by {
            assert(ids[g1] != ids[g2]);
        }
    }
    r
}

fn contains_id(ids: &Vec<u64>, id: u64) -> (r: bool)
    ensures
        r == ids@.contains(id),
{
    let mut i: usize = 0;
    while i < ids.len()
        invariant
            i <= ids.len(),
            forall|j: int| 0 <= j < i ==> #[trigger] ids[j] != id,
        decreases ids.len() - i,
    {
        if ids[i] == id {
            return true;
        }
        i += 1;
    }
    false
}

} // verus!
