use super::spawner::Spawnables;
use super::{BuildError, MapBuildData};
use crate::map::{has_floor, nearest_floor};
use crate::rng::gen_range;
use vstd::prelude::*;

verus! {

/// Places one objective on a floor tile near a random index. It may land on
/// a position that already holds a spawn, which it then replaces.
#[derive(Debug)]
pub struct GeneralObjectiveSpawner {
    objective: Spawnables,
}

impl GeneralObjectiveSpawner {
    pub fn new(objective: Spawnables) -> (r: Self)
        ensures
            r.objective() == objective,
    {
        GeneralObjectiveSpawner { objective }
    }

    /// The kind this spawner places.
    pub closed spec fn objective(&self) -> Spawnables {
        self.objective
    }

    /// What a run of `modify_map` does: the map and metadata `before` become
    /// those `after`, with the outcome `r`.
    pub open spec fn modified(&self, before: MapBuildData, after: MapBuildData, r: Result<(), BuildError>) -> bool {
        &&& (after.map == before.map)
        &&& (r is Err <==> !has_floor(before.map.tiles@))
        &&& (r is Err ==> r == Err::<(), BuildError>(BuildError::NoFloorTile) && after == before)
        &&& (r is Ok ==> exists|start: int, j: int|
            0 <= start < before.map.tiles@.len()
            && #[trigger] nearest_floor(before.map.tiles@, start, j)
            && after.metadata.spawn_list@ == before.metadata.spawn_list@.insert(
                ((j % before.map.width as int) as u32, (j / before.map.width as int) as u32),
                self.objective(),
            ))
        &&& (r is Ok ==> after.metadata.rooms == before.metadata.rooms
            && after.metadata.regions == before.metadata.regions
            && after.metadata.starting_position == before.metadata.starting_position
            && after.history@.len() == before.history@.len() + 1)
    }

    /// Draws an index and places the objective on the floor tile found by
    /// searching forward from it, then backward. Fails when the map has no
    /// floor tile.
    pub fn modify_map(&self, rng: &mut rand::rngs::StdRng, build_data: &mut MapBuildData) -> (r: Result<(), BuildError>)
        requires
            old(build_data).wf(),
        ensures
            final(build_data).wf(),
            self.modified(*old(build_data), *final(build_data), r),
    {
        let len = build_data.map.length();
        let random_idx = gen_range(rng, 0, len as u64) as usize;
        match build_data.map.find_floor_near(random_idx) {
            Some(j) => {
                match build_data.map.idx_to_xy(j) {
                    Ok(p) => {
                        build_data.metadata.spawn_list.insert(p, self.objective);
                        build_data.take_snapshot();
                        Ok(())
                    },
                    Err(_) => Err(BuildError::NoFloorTile),
                }
            },
            None => Err(BuildError::NoFloorTile),
        }
    }
}

} // verus!
