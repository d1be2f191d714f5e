use super::{BuildError, MapBuildData, Region};
use crate::map::{adjacent, index_of, lemma_coord_of_index, lemma_index_in_range, lemma_index_of_coord, pos_of, GameMap, TileType};
use vstd::prelude::*;

verus! {

/// Relies on pathfinding's `dijkstra_all`: the keys of the map it returns are
/// the nodes other than `start` that the successor function reaches from
/// `start`; here the successors are the floor tiles next to a position.
#[verifier::external_body]
fn reachable_from(map: &GameMap, start: (u32, u32)) -> (r: Region)
    requires
        map.wf(),
    ensures
        forall|q: (u32, u32)| #[trigger] r@.contains(q) <==> (q != start && map.reachable(start, q)),
{
    pathfinding::directed::dijkstra::dijkstra_all(&start, |p: &(u32, u32)| map.open_neighbours(*p))
        .into_keys()
        .collect()
}

/// Whether the tile at linear index `idx` survives culling from `start`: it
/// is the start itself or can be walked to from it.
pub open spec fn kept(map: GameMap, start: (u32, u32), idx: int) -> bool {
    pos_of(map.width as int, idx) == start || map.reachable(start, pos_of(map.width as int, idx))
}

/// After culling from `start`, every floor tile that is left can be walked
/// to from `start` over floor tiles of the culled map.
pub proof fn lemma_culled_floor_is_connected(before: GameMap, after: GameMap, start: (u32, u32), p: (u32, u32))
    requires
        before.wf(),
        after.width == before.width,
        after.height == before.height,
        after.tiles@.len() == before.tiles@.len(),
        forall|i: int| 0 <= i < before.tiles@.len() ==> #[trigger] after.tiles@[i] == if kept(before, start, i) {
            before.tiles@[i]
        } else {
            TileType::Wall
        },
        after.is_floor_at(p),
    ensures
        after.reachable(start, p),
{
    let w = before.width as int;
    let h = before.height as int;
    if p == start {
        let path = seq![start];
        assert(after.is_walk(path));
    } else {
        let i = index_of(w, p.0 as int, p.1 as int);
        lemma_index_in_range(w, h, p.0 as int, p.1 as int);
        lemma_coord_of_index(w, h, p.0 as int, p.1 as int);
        assert(pos_of(w, i) == p);
        assert(kept(before, start, i));
        let path = choose|path: Seq<(u32, u32)>| #[trigger] before.is_walk(path) && path[0] == start && path.last() == p;
        assert forall|j: int| 1 <= j < path.len() implies adjacent(path[j - 1], #[trigger] path[j]) && after.is_floor_at(path[j]) by {
            let q = path[j];
            let prefix = path.subrange(0, j + 1);
            assert(before.is_walk(prefix)) by {
                assert forall|k: int| 1 <= k < prefix.len() implies adjacent(prefix[k - 1], #[trigger] prefix[k]) && before.is_floor_at(prefix[k]) by {
                    assert(prefix[k] == path[k]);
                    assert(prefix[k - 1] == path[k - 1]);
                }
            }
            assert(before.reachable(start, q));
            let k = index_of(w, q.0 as int, q.1 as int);
            lemma_index_in_range(w, h, q.0 as int, q.1 as int);
            lemma_coord_of_index(w, h, q.0 as int, q.1 as int);
            assert(pos_of(w, k) == q);
            assert(kept(before, start, k));
        }
        assert(after.is_walk(path));
    }
}

/// Turns every floor tile that cannot be walked to from the starting
/// position (moving orthogonally over floor) into a wall.
#[derive(Debug)]
pub struct CullUnreachable;

impl CullUnreachable {
    pub fn new() -> (r: Self) {
        CullUnreachable
    }

    /// What a run of `modify_map` does: the map and metadata `before` become
    /// those `after`, with the outcome `r`.
    pub open spec fn modified(&self, before: MapBuildData, after: MapBuildData, r: Result<(), BuildError>) -> bool {
        &&& (r is Err <==> before.metadata.starting_position is None)
        &&& (r is Err ==> r == Err::<(), BuildError>(BuildError::MissingStartingPosition) && after == before)
        &&& (after.map.width == before.map.width)
        &&& (after.map.height == before.map.height)
        &&& (after.map.tiles@.len() == before.map.tiles@.len())
        &&& (after.metadata == before.metadata)
        &&& (r is Ok ==> forall|i: int| 0 <= i < before.map.tiles@.len() ==> #[trigger] after.map.tiles@[i] == if kept(before.map, before.metadata.starting_position->0, i) {
            before.map.tiles@[i]
        } else {
            TileType::Wall
        })
        &&& (r is Ok ==> after.history@.len() == before.history@.len() + 1)
    }

    /// Culls the map; fails when no starting position has been chosen.
    pub fn modify_map(&self, build_data: &mut MapBuildData) -> (r: Result<(), BuildError>)
        requires
            old(build_data).wf(),
        ensures
            final(build_data).wf(),
            self.modified(*old(build_data), *final(build_data), r),
    {
        let start = match build_data.metadata.starting_position {
            Some(s) => s,
            None => return Err(BuildError::MissingStartingPosition),
        };
        let ghost old_map = build_data.map;
        let ghost w = build_data.map.width as int;
        let ghost h = build_data.map.height as int;
        let reachable = reachable_from(&build_data.map, start);
        let len = build_data.map.length();
        let mut keep: Vec<bool> = Vec::with_capacity(len);
        while keep.len() < len
            invariant
                keep@.len() <= len,
                forall|i: int| 0 <= i < keep@.len() ==> !keep@[i],
            decreases len - keep@.len(),
        {
            keep.push(false);
        }
        let mut k: usize = 0;
        while k < reachable.len()
            invariant
                build_data.map == old_map,
                old_map.wf(),
                w == old_map.width,
                h == old_map.height,
                len == old_map.tiles@.len(),
                keep@.len() == len,
                k <= reachable@.len(),
                forall|i: int| 0 <= i < len ==> (#[trigger] keep@[i] <==> exists|m: int| 0 <= m < k
                    && old_map.contains(reachable@[m].0 as int, reachable@[m].1 as int)
                    && index_of(w, reachable@[m].0 as int, reachable@[m].1 as int) == i),
            decreases reachable@.len() - k,
        {
            let q = reachable[k];
            let ghost before = keep@;
            if let Ok(i) = build_data.map.xy_to_idx(q.0, q.1) {
                keep.set(i, true);
            }
            assert forall|i: int| 0 <= i < len implies (#[trigger] keep@[i] <==> exists|m: int| 0 <= m < k + 1
                && old_map.contains(reachable@[m].0 as int, reachable@[m].1 as int)
                && index_of(w, reachable@[m].0 as int, reachable@[m].1 as int) == i) by {
                if keep@[i] && !before[i] {
                    assert(reachable@[k as int] == q);
                }
                if before[i] {
                    let m = choose|m: int| 0 <= m < k
                        && old_map.contains(reachable@[m].0 as int, reachable@[m].1 as int)
                        && index_of(w, reachable@[m].0 as int, reachable@[m].1 as int) == i;
                }
            }
            k = k + 1;
        }
        let mut idx: usize = 0;
        while idx < len
            invariant
                old_map.wf(),
                w == old_map.width,
                h == old_map.height,
                len == old_map.tiles@.len(),
                keep@.len() == len,
                idx <= len,
                build_data.map.width == old_map.width,
                build_data.map.height == old_map.height,
                build_data.map.tiles@.len() == len,
                build_data.metadata == old(build_data).metadata,
                build_data.history == old(build_data).history,
                start == old(build_data).metadata.starting_position->0,
                forall|q: (u32, u32)| #[trigger] reachable@.contains(q) <==> (q != start && old_map.reachable(start, q)),
                old(build_data).map == old_map,
                forall|i: int| 0 <= i < len ==> (#[trigger] keep@[i] <==> exists|m: int| 0 <= m < reachable@.len()
                    && old_map.contains(reachable@[m].0 as int, reachable@[m].1 as int)
                    && index_of(w, reachable@[m].0 as int, reachable@[m].1 as int) == i),
                forall|i: int| idx <= i < len ==> build_data.map.tiles@[i] == old_map.tiles@[i],
                forall|i: int| 0 <= i < idx ==> #[trigger] build_data.map.tiles@[i] == if kept(old_map, start, i) {
                    old_map.tiles@[i]
                } else {
                    TileType::Wall
                },
            decreases len - idx,
        {
            let pos = match build_data.map.idx_to_xy(idx) {
                Ok(p) => p,
                Err(_) => start,
            };
            proof {
                lemma_index_of_coord(w, h, idx as int);
                let p = pos_of(w, idx as int);
                assert(pos == p);
                assert(keep@[idx as int] <==> reachable@.contains(p)) by {
                    if keep@[idx as int] {
                        let m = choose|m: int| 0 <= m < reachable@.len()
                            && old_map.contains(reachable@[m].0 as int, reachable@[m].1 as int)
                            && index_of(w, reachable@[m].0 as int, reachable@[m].1 as int) == idx;
                        lemma_coord_of_index(w, h, reachable@[m].0 as int, reachable@[m].1 as int);
                        assert(reachable@[m] == p);
                    }
                    if reachable@.contains(p) {
                        let m = choose|m: int| 0 <= m < reachable@.len() && reachable@[m] == p;
                        assert(old_map.contains(reachable@[m].0 as int, reachable@[m].1 as int));
                    }
                }
            }
            let ghost before = build_data.map.tiles@;
            if !keep[idx] && !(pos.0 == start.0 && pos.1 == start.1) {
                build_data.map.tiles.set(idx, TileType::Wall);
            }
            proof {
                let p = pos_of(w, idx as int);
                assert(reachable@.contains(p) <==> (p != start && old_map.reachable(start, p)));
                assert(build_data.map.tiles@[idx as int] == if kept(old_map, start, idx as int) {
                    old_map.tiles@[idx as int]
                } else {
                    TileType::Wall
                });
                assert forall|i: int| 0 <= i < idx implies #[trigger] build_data.map.tiles@[i] == before[i] by {}
            }
            idx = idx + 1;
        }
        build_data.take_snapshot();
        Ok(())
    }
}

} // verus!
