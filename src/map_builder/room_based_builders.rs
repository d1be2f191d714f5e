use super::rect::Rect;
use super::spawner::{fill_room, is_creature_or_item, room_fill, spawn_fold, SpawnList, Spawnables};
use super::{rooms_view, BuildError, MapBuildData};
use crate::rng::gen_range;
use vstd::prelude::*;

verus! {

/// Whether `p` lies strictly inside the border of `room`.
pub open spec fn in_interior(room: Rect, p: (u32, u32)) -> bool {
    room.x1 < p.0 < room.x2 && room.y1 < p.1 < room.y2
}

/// Whether `room` has any tile strictly inside its border.
pub open spec fn has_interior(room: Rect) -> bool {
    room.x1 + 1 < room.x2 && room.y1 + 1 < room.y2
}

/// Fills every room with spawns as [`fill_room`] does.
#[derive(Debug)]
pub struct RoomBasedSpawner {
    max_spawns: u32,
}

impl RoomBasedSpawner {
    pub fn new(max_spawns: u32) -> (r: RoomBasedSpawner)
        ensures
            r.spawn_limit() == max_spawns,
    {
        RoomBasedSpawner { max_spawns }
    }

    /// The most spawns placed in one room.
    pub closed spec fn spawn_limit(&self) -> nat {
        self.max_spawns as nat
    }

    /// The spawns of all rooms together; a later room's spawn replaces an
    /// earlier one at the same position.
    pub fn spawn(&self, rng: &mut rand::rngs::StdRng, rooms: &Vec<Rect>) -> (r: SpawnList)
        ensures
            forall|p: (u32, u32)| #[trigger] r@.dom().contains(p) ==> is_creature_or_item(r@[p])
                && exists|i: int| 0 <= i < rooms@.len() && in_interior(#[trigger] rooms@[i], p),
            rooms@.len() == 0 ==> r@.dom().len() == 0,
            exists|lists: Seq<Map<(u32, u32), Spawnables>>| #[trigger] lists.len() == rooms@.len()
                && (forall|i: int| 0 <= i < lists.len() ==> room_fill(#[trigger] lists[i], rooms@[i], self.spawn_limit()))
                && r@ == spawn_fold(Map::empty(), lists),
    {
        let mut all = SpawnList::new();
        let mut i: usize = 0;
        let ghost mut lists: Seq<Map<(u32, u32), Spawnables>> = Seq::empty();
        while i < rooms.len()
            invariant
                i <= rooms@.len(),
                lists.len() == i,
                forall|j: int| 0 <= j < lists.len() ==> room_fill(#[trigger] lists[j], rooms@[j], self.spawn_limit()),
                all@ == spawn_fold(Map::empty(), lists),
                forall|p: (u32, u32)| #[trigger] all@.dom().contains(p) ==> is_creature_or_item(all@[p])
                    && exists|j: int| 0 <= j < i && in_interior(#[trigger] rooms@[j], p),
                i == 0 ==> all@ == Map::<(u32, u32), Spawnables>::empty(),
            decreases rooms@.len() - i,
        {
            let list = fill_room(rng, &rooms[i], self.max_spawns);
            let ghost before = all@;
            all.extend(list);
            proof {
                let old_lists = lists;
                lists = lists.push(list@);
                assert(lists.drop_last() =~= old_lists);
                assert forall|j: int| 0 <= j < lists.len() implies room_fill(#[trigger] lists[j], rooms@[j], self.spawn_limit()) by {
                    if j < i {
                        assert(lists[j] == old_lists[j]);
                    }
                }
            }
            assert forall|p: (u32, u32)| #[trigger] all@.dom().contains(p) implies is_creature_or_item(all@[p])
                && exists|j: int| 0 <= j < i + 1 && in_interior(#[trigger] rooms@[j], p) by {
                if list@.dom().contains(p) {
                    assert(in_interior(rooms@[i as int], p));
                } else {
                    let j = choose|j: int| 0 <= j < i && in_interior(#[trigger] rooms@[j], p);
                }
            }
            i = i + 1;
        }
        assert(rooms@.len() == 0 ==> all@.dom() =~= Set::<(u32, u32)>::empty());
        assert(lists.len() == rooms@.len());
        all
    }

    /// What a run of `modify_map` does: the map and metadata `before` become
    /// those `after`, with the outcome `r`.
    pub open spec fn modified(&self, before: MapBuildData, after: MapBuildData, r: Result<(), BuildError>) -> bool {
        &&& (after.map == before.map)
        &&& (r is Err <==> before.metadata.rooms is None)
        &&& (r is Err ==> r == Err::<(), BuildError>(BuildError::MissingRooms) && after == before)
        &&& (r is Ok ==> exists|lists: Seq<Map<(u32, u32), Spawnables>>|
            #[trigger] lists.len() == rooms_view(before.metadata.rooms)->0.len()
            && (forall|i: int| 0 <= i < lists.len() ==> room_fill(#[trigger] lists[i], rooms_view(before.metadata.rooms)->0[i], self.spawn_limit()))
            && after.metadata.spawn_list@ == before.metadata.spawn_list@.union_prefer_right(spawn_fold(Map::empty(), lists)))
        &&& (after.metadata.starting_position == before.metadata.starting_position)
        &&& (after.metadata.rooms == before.metadata.rooms)
        &&& (after.metadata.regions == before.metadata.regions)
        &&& (r is Ok ==> after.history@.len() == before.history@.len() + 1)
        &&& (r is Ok ==> forall|p: (u32, u32)| #[trigger] before.metadata.spawn_list@.dom().contains(p) ==> after.metadata.spawn_list@.dom().contains(p))
        &&& (r is Ok ==> forall|p: (u32, u32)| #[trigger] after.metadata.spawn_list@.dom().contains(p) ==>
            after.metadata.spawn_list@[p] == before.metadata.spawn_list@[p]
            || (is_creature_or_item(after.metadata.spawn_list@[p])
                && exists|i: int| 0 <= i < rooms_view(before.metadata.rooms)->0.len()
                    && in_interior(#[trigger] rooms_view(before.metadata.rooms)->0[i], p)))
    }

    /// Adds the spawns of every room to the spawn list, where they replace
    /// what was there. Fails when the initial builder produced no rooms.
    pub fn modify_map(&self, rng: &mut rand::rngs::StdRng, build_data: &mut MapBuildData) -> (r: Result<(), BuildError>)
        requires
            old(build_data).wf(),
        ensures
            final(build_data).wf(),
            self.modified(*old(build_data), *final(build_data), r),
    {
        let list = match &build_data.metadata.rooms {
            None => {
                return Err(BuildError::MissingRooms);
            },
            Some(rooms) => self.spawn(rng, rooms),
        };
        let ghost rooms = rooms_view(old(build_data).metadata.rooms)->0;
        assert(rooms == build_data.metadata.rooms->0@);
        build_data.metadata.spawn_list.extend(list);
        assert forall|p: (u32, u32)| #[trigger] build_data.metadata.spawn_list@.dom().contains(p) implies
            build_data.metadata.spawn_list@[p] == old(build_data).metadata.spawn_list@[p]
            || (is_creature_or_item(build_data.metadata.spawn_list@[p])
                && exists|i: int| 0 <= i < rooms.len() && in_interior(#[trigger] rooms[i], p)) by {
            if list@.dom().contains(p) {
                let i = choose|i: int| 0 <= i < rooms.len() && in_interior(#[trigger] rooms[i], p);
            }
        }
        build_data.take_snapshot();
        Ok(())
    }
}

/// How a room-based modifier picks its room.
#[derive(Debug, PartialEq, Eq, Clone, Copy, Structural)]
pub enum RoomSelectionMode {
    First,
    Last,
    Random,
}

/// How a room-based modifier picks a position inside its room.
#[derive(Debug, PartialEq, Eq, Clone, Copy, Structural)]
pub enum PositionSelectionMode {
    Center,
    Random,
}

/// Whether `mode` may pick room `i` of `n` rooms.
pub open spec fn room_choice(mode: RoomSelectionMode, n: int, i: int) -> bool {
    match mode {
        RoomSelectionMode::First => i == 0,
        RoomSelectionMode::Last => i == n - 1,
        RoomSelectionMode::Random => 0 <= i < n,
    }
}

/// Whether `mode` may pick position `p` in `room`.
pub open spec fn position_choice(mode: PositionSelectionMode, room: Rect, p: (u32, u32)) -> bool {
    match mode {
        PositionSelectionMode::Center => p == (((room.x1 + room.x2) / 2) as u32, ((room.y1 + room.y2) / 2) as u32),
        PositionSelectionMode::Random => in_interior(room, p),
    }
}

fn select_room(mode: RoomSelectionMode, rooms: &Vec<Rect>, rng: &mut rand::rngs::StdRng) -> (r: usize)
    requires
        rooms@.len() > 0,
    ensures
        room_choice(mode, rooms@.len() as int, r as int),
        r < rooms@.len(),
{
    let num_rooms = rooms.len();
    match mode {
        RoomSelectionMode::First => 0,
        RoomSelectionMode::Last => num_rooms - 1,
        RoomSelectionMode::Random => gen_range(rng, 0, num_rooms as u64) as usize,
    }
}

fn select_position(mode: PositionSelectionMode, room: &Rect, rng: &mut rand::rngs::StdRng) -> (r: Option<(u32, u32)>)
    ensures
        r is None <==> mode == PositionSelectionMode::Random && !has_interior(*room),
        r matches Some(p) ==> position_choice(mode, *room, p),
{
    match mode {
        PositionSelectionMode::Center => Some(room.center()),
        PositionSelectionMode::Random => {
            if (room.x1 as u64) + 1 < room.x2 as u64 && (room.y1 as u64) + 1 < room.y2 as u64 {
                let rx = gen_range(rng, room.x1 as u64 + 1, room.x2 as u64) as u32;
                let ry = gen_range(rng, room.y1 as u64 + 1, room.y2 as u64) as u32;
                Some((rx, ry))
            } else {
                None
            }
        },
    }
}

/// Picks a room and a position in it: the room by `room_mode`, the position
/// by `pos_mode`. Fails when there are no rooms, and when a random position
/// is asked of a room without interior.
fn choose_in_rooms(
    room_mode: RoomSelectionMode,
    pos_mode: PositionSelectionMode,
    rooms: &Option<Vec<Rect>>,
    rng: &mut rand::rngs::StdRng,
) -> (r: Result<(u32, u32), BuildError>)
    ensures
        (rooms is None || rooms->0@.len() == 0) <==> r == Err::<(u32, u32), BuildError>(BuildError::MissingRooms),
        r matches Err(e) ==> e == BuildError::MissingRooms || e == BuildError::EmptyRoom,
        r == Err::<(u32, u32), BuildError>(BuildError::EmptyRoom) ==> pos_mode == PositionSelectionMode::Random
            && exists|i: int| #[trigger] room_choice(room_mode, rooms->0@.len() as int, i) && !has_interior(rooms->0@[i]),
        pos_mode == PositionSelectionMode::Center && rooms is Some && rooms->0@.len() > 0 ==> r is Ok,
        rooms is Some && (forall|i: int| 0 <= i < rooms->0@.len() ==> has_interior(#[trigger] rooms->0@[i])) && rooms->0@.len() > 0 ==> r is Ok,
        r matches Ok(p) ==> exists|i: int| #[trigger] room_choice(room_mode, rooms->0@.len() as int, i)
            && position_choice(pos_mode, rooms->0@[i], p),
{
    match rooms {
        None => Err(BuildError::MissingRooms),
        Some(v) => {
            if v.len() == 0 {
                return Err(BuildError::MissingRooms);
            }
            let i = select_room(room_mode, v, rng);
            match select_position(pos_mode, &v[i], rng) {
                Some(p) => Ok(p),
                None => Err(BuildError::EmptyRoom),
            }
        },
    }
}

/// Sets the starting position to a position in a room.
#[derive(Debug)]
pub struct RoomBasedStartingPosition {
    room_mode: RoomSelectionMode,
    pos_mode: PositionSelectionMode,
}

impl RoomBasedStartingPosition {
    pub fn new(room_mode: RoomSelectionMode, pos_mode: PositionSelectionMode) -> (r: RoomBasedStartingPosition)
        ensures
            r.room_mode() == room_mode,
            r.pos_mode() == pos_mode,
    {
        RoomBasedStartingPosition { room_mode, pos_mode }
    }

    /// How the room is picked.
    pub closed spec fn room_mode(&self) -> RoomSelectionMode {
        self.room_mode
    }

    /// How the position in the room is picked.
    pub closed spec fn pos_mode(&self) -> PositionSelectionMode {
        self.pos_mode
    }

    /// What a run of `modify_map` does: the map and metadata `before` become
    /// those `after`, with the outcome `r`.
    pub open spec fn modified(&self, before: MapBuildData, after: MapBuildData, r: Result<(), BuildError>) -> bool {
        &&& (after.map == before.map)
        &&& (after.metadata.rooms == before.metadata.rooms)
        &&& (after.metadata.regions == before.metadata.regions)
        &&& (after.metadata.spawn_list == before.metadata.spawn_list)
        &&& (r is Err ==> after == before)
        &&& ((before.metadata.rooms is None || rooms_view(before.metadata.rooms)->0.len() == 0)
            <==> r == Err::<(), BuildError>(BuildError::MissingRooms))
        &&& (r == Err::<(), BuildError>(BuildError::EmptyRoom) ==> self.pos_mode() == PositionSelectionMode::Random)
        &&& (self.pos_mode() == PositionSelectionMode::Center && rooms_view(before.metadata.rooms) is Some
            && rooms_view(before.metadata.rooms)->0.len() > 0 ==> r is Ok)
        &&& (rooms_view(before.metadata.rooms) is Some && rooms_view(before.metadata.rooms)->0.len() > 0
            && (forall|i: int| 0 <= i < rooms_view(before.metadata.rooms)->0.len()
                ==> has_interior(#[trigger] rooms_view(before.metadata.rooms)->0[i])) ==> r is Ok)
        &&& (r is Ok ==> after.history@.len() == before.history@.len() + 1)
        &&& (r is Ok ==> exists|i: int, p: (u32, u32)| room_choice(self.room_mode(), rooms_view(before.metadata.rooms)->0.len() as int, i)
            && #[trigger] position_choice(self.pos_mode(), rooms_view(before.metadata.rooms)->0[i], p)
            && after.metadata.starting_position == Some(p))
    }

    /// Picks the room and the position in it and makes that the starting
    /// position.
    pub fn modify_map(&self, rng: &mut rand::rngs::StdRng, build_data: &mut MapBuildData) -> (r: Result<(), BuildError>)
        requires
            old(build_data).wf(),
        ensures
            final(build_data).wf(),
            self.modified(*old(build_data), *final(build_data), r),
    {
        match choose_in_rooms(self.room_mode, self.pos_mode, &build_data.metadata.rooms, rng) {
            Ok(p) => {
                let ghost rooms = rooms_view(old(build_data).metadata.rooms)->0;
                proof {
                    let i = choose|i: int| #[trigger] room_choice(self.room_mode, rooms.len() as int, i)
                        && position_choice(self.pos_mode, rooms[i], p);
                    assert(position_choice(self.pos_mode(), rooms[i], p));
                }
                build_data.metadata.starting_position = Some(p);
                build_data.take_snapshot();
                Ok(())
            },
            Err(e) => Err(e),
        }
    }
}

/// Places one objective at a position in a room, replacing any spawn there.
#[derive(Debug)]
pub struct RoomBasedObjectiveSpawner {
    room_mode: RoomSelectionMode,
    pos_mode: PositionSelectionMode,
    objective: Spawnables,
}

impl RoomBasedObjectiveSpawner {
    pub fn new(room_mode: RoomSelectionMode, pos_mode: PositionSelectionMode, objective: Spawnables) -> (r: RoomBasedObjectiveSpawner)
        ensures
            r.room_mode() == room_mode,
            r.pos_mode() == pos_mode,
            r.objective() == objective,
    {
        RoomBasedObjectiveSpawner { room_mode, pos_mode, objective }
    }

    /// How the room is picked.
    pub closed spec fn room_mode(&self) -> RoomSelectionMode {
        self.room_mode
    }

    /// How the position in the room is picked.
    pub closed spec fn pos_mode(&self) -> PositionSelectionMode {
        self.pos_mode
    }

    /// The kind this spawner places.
    pub closed spec fn objective(&self) -> Spawnables {
        self.objective
    }

    /// What a run of `modify_map` does: the map and metadata `before` become
    /// those `after`, with the outcome `r`.
    pub open spec fn modified(&self, before: MapBuildData, after: MapBuildData, r: Result<(), BuildError>) -> bool {
        &&& (after.map == before.map)
        &&& (after.metadata.starting_position == before.metadata.starting_position)
        &&& (after.metadata.rooms == before.metadata.rooms)
        &&& (after.metadata.regions == before.metadata.regions)
        &&& (r is Err ==> after == before)
        &&& ((before.metadata.rooms is None || rooms_view(before.metadata.rooms)->0.len() == 0)
            <==> r == Err::<(), BuildError>(BuildError::MissingRooms))
        &&& (r == Err::<(), BuildError>(BuildError::EmptyRoom) ==> self.pos_mode() == PositionSelectionMode::Random)
        &&& (self.pos_mode() == PositionSelectionMode::Center && rooms_view(before.metadata.rooms) is Some
            && rooms_view(before.metadata.rooms)->0.len() > 0 ==> r is Ok)
        &&& (rooms_view(before.metadata.rooms) is Some && rooms_view(before.metadata.rooms)->0.len() > 0
            && (forall|i: int| 0 <= i < rooms_view(before.metadata.rooms)->0.len()
                ==> has_interior(#[trigger] rooms_view(before.metadata.rooms)->0[i])) ==> r is Ok)
        &&& (r is Ok ==> after.history@.len() == before.history@.len() + 1)
        &&& (r is Ok ==> exists|i: int, p: (u32, u32)| room_choice(self.room_mode(), rooms_view(before.metadata.rooms)->0.len() as int, i)
            && #[trigger] position_choice(self.pos_mode(), rooms_view(before.metadata.rooms)->0[i], p)
            && after.metadata.spawn_list@ == before.metadata.spawn_list@.insert(p, self.objective()))
    }

    /// Picks the room and the position in it and places the objective there.
    pub fn modify_map(&self, rng: &mut rand::rngs::StdRng, build_data: &mut MapBuildData) -> (r: Result<(), BuildError>)
        requires
            old(build_data).wf(),
        ensures
            final(build_data).wf(),
            self.modified(*old(build_data), *final(build_data), r),
    {
        match choose_in_rooms(self.room_mode, self.pos_mode, &build_data.metadata.rooms, rng) {
            Ok(p) => {
                let ghost rooms = rooms_view(old(build_data).metadata.rooms)->0;
                proof {
                    let i = choose|i: int| #[trigger] room_choice(self.room_mode, rooms.len() as int, i)
                        && position_choice(self.pos_mode, rooms[i], p);
                    assert(position_choice(self.pos_mode(), rooms[i], p));
                }
                build_data.metadata.spawn_list.insert(p, self.objective);
                build_data.take_snapshot();
                Ok(())
            },
            Err(e) => Err(e),
        }
    }
}

} // verus!
