use super::{BuildError, MapBuildData};
use crate::map::{has_floor, nearest_floor};
use crate::rng::gen_range;
use vstd::prelude::*;

verus! {

/// Chooses a starting position on a floor tile near a random index.
#[derive(Debug)]
pub struct ArbitraryStartingPoint;

impl ArbitraryStartingPoint {
    pub fn new() -> (r: Self) {
        ArbitraryStartingPoint
    }

    /// What a run of `modify_map` does: the map and metadata `before` become
    /// those `after`, with the outcome `r`.
    pub open spec fn modified(&self, before: MapBuildData, after: MapBuildData, r: Result<(), BuildError>) -> bool {
        &&& (after.map == before.map)
        &&& (r is Err <==> !has_floor(before.map.tiles@))
        &&& (r is Err ==> r == Err::<(), BuildError>(BuildError::NoFloorTile) && after == before)
        &&& (r is Ok ==> exists|start: int, j: int|
            0 <= start < before.map.tiles@.len()
            && #[trigger] nearest_floor(before.map.tiles@, start, j)
            && after.metadata.starting_position == Some(
                ((j % before.map.width as int) as u32, (j / before.map.width as int) as u32)))
        &&& (r is Ok ==> after.metadata.rooms == before.metadata.rooms
            && after.metadata.regions == before.metadata.regions
            && after.metadata.spawn_list == before.metadata.spawn_list
            && after.history@.len() == before.history@.len() + 1)
    }

    /// Draws an index and sets the starting position to the floor tile found
    /// by searching forward from it, then backward. Fails when the map has
    /// no floor tile.
    pub fn modify_map(&self, rng: &mut rand::rngs::StdRng, build_data: &mut MapBuildData) -> (r: Result<(), BuildError>)
        requires
            old(build_data).wf(),
        ensures
            final(build_data).wf(),
            self.modified(*old(build_data), *final(build_data), r),
    {
        let len = build_data.map.length();
        let random_idx = gen_range(rng, 0, len as u64) as usize;
        match build_data.map.find_floor_near(random_idx) {
            Some(j) => {
                let pos = build_data.map.idx_to_xy(j);
                match pos {
                    Ok(p) => {
                        build_data.metadata.starting_position = Some(p);
                        build_data.take_snapshot();
                        Ok(())
                    },
                    Err(_) => Err(BuildError::NoFloorTile),
                }
            },
            None => Err(BuildError::NoFloorTile),
        }
    }
}

} // verus!
