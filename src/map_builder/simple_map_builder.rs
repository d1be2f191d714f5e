use super::rect::{rects_intersect, Rect};
use super::room_based_builders::in_interior;
use super::{rooms_view, BuildError, MapBuildData};
use crate::map::{
    in_box, index_of, lemma_index_in_range, lemma_pos_of_index, lemma_reach_along_column, lemma_reach_along_row,
    lemma_reach_self, pos_of, GameMap, TileType,
};
use crate::rng::{gen_range, gen_ratio};
use vstd::prelude::*;

verus! {

/// The center of `room`, rounded down.
pub open spec fn center_of(room: Rect) -> (u32, u32) {
    (((room.x1 + room.x2) / 2) as u32, ((room.y1 + room.y2) / 2) as u32)
}

/// The smaller of two coordinates.
pub open spec fn lo(a: u32, b: u32) -> int {
    if a <= b { a as int } else { b as int }
}

/// The larger of two coordinates.
pub open spec fn hi(a: u32, b: u32) -> int {
    if a <= b { b as int } else { a as int }
}

/// Whether `p` lies on the L-shaped corridor from `a` to `b`: along `a`'s row
/// then `b`'s column when `horizontal_first`, else along `a`'s column then
/// `b`'s row.
pub open spec fn on_dogleg(a: (u32, u32), b: (u32, u32), horizontal_first: bool, p: (u32, u32)) -> bool {
    if horizontal_first {
        (p.1 == a.1 && lo(a.0, b.0) <= p.0 <= hi(a.0, b.0)) || (p.0 == b.0 && lo(a.1, b.1) <= p.1 <= hi(a.1, b.1))
    } else {
        (p.0 == a.0 && lo(a.1, b.1) <= p.1 <= hi(a.1, b.1)) || (p.1 == b.1 && lo(a.0, b.0) <= p.0 <= hi(a.0, b.0))
    }
}

/// Makes floor of every tile strictly inside the border of `room`.
fn apply_room_to_map(map: &mut GameMap, room: &Rect)
    requires
        old(map).wf(),
    ensures
        final(map).wf(),
        final(map).width == old(map).width,
        final(map).height == old(map).height,
        forall|i: int| 0 <= i < old(map).tiles@.len() ==> #[trigger] final(map).tiles@[i] == if in_interior(*room, pos_of(old(map).width as int, i)) {
            TileType::Floor
        } else {
            old(map).tiles@[i]
        },
{
    map.carve_box(room.x1 as u64 + 1, room.x2 as u64, room.y1 as u64 + 1, room.y2 as u64);
}

/// Makes floor of the tiles of row `y` from `x1` to `x2`, both included.
fn apply_horizontal_tunnel(map: &mut GameMap, x1: u32, x2: u32, y: u32)
    requires
        old(map).wf(),
    ensures
        final(map).wf(),
        final(map).width == old(map).width,
        final(map).height == old(map).height,
        forall|i: int| 0 <= i < old(map).tiles@.len() ==> #[trigger] final(map).tiles@[i] == if pos_of(old(map).width as int, i).1 == y
            && lo(x1, x2) <= pos_of(old(map).width as int, i).0 <= hi(x1, x2) {
            TileType::Floor
        } else {
            old(map).tiles@[i]
        },
{
    let (a, b) = if x1 <= x2 { (x1, x2) } else { (x2, x1) };
    map.carve_box(a as u64, b as u64 + 1, y as u64, y as u64 + 1);
}

/// Makes floor of the tiles of column `x` from `y1` to `y2`, both included.
fn apply_vertical_tunnel(map: &mut GameMap, y1: u32, y2: u32, x: u32)
    requires
        old(map).wf(),
    ensures
        final(map).wf(),
        final(map).width == old(map).width,
        final(map).height == old(map).height,
        forall|i: int| 0 <= i < old(map).tiles@.len() ==> #[trigger] final(map).tiles@[i] == if pos_of(old(map).width as int, i).0 == x
            && lo(y1, y2) <= pos_of(old(map).width as int, i).1 <= hi(y1, y2) {
            TileType::Floor
        } else {
            old(map).tiles@[i]
        },
{
    let (a, b) = if y1 <= y2 { (y1, y2) } else { (y2, y1) };
    map.carve_box(x as u64, x as u64 + 1, a as u64, b as u64 + 1);
}

/// Carves an L-shaped corridor of floor from `(x1, y1)` to `(x2, y2)`.
fn apply_tunnel(map: &mut GameMap, x1: u32, y1: u32, x2: u32, y2: u32, horizontal_first: bool)
    requires
        old(map).wf(),
    ensures
        final(map).wf(),
        final(map).width == old(map).width,
        final(map).height == old(map).height,
        forall|i: int| 0 <= i < old(map).tiles@.len() ==> #[trigger] final(map).tiles@[i] == if on_dogleg((x1, y1), (x2, y2), horizontal_first, pos_of(old(map).width as int, i)) {
            TileType::Floor
        } else {
            old(map).tiles@[i]
        },
{
    let ghost before = map.tiles@;
    if horizontal_first {
        apply_horizontal_tunnel(map, x1, x2, y1);
        apply_vertical_tunnel(map, y1, y2, x2);
        assert forall|i: int| 0 <= i < before.len() implies #[trigger] map.tiles@[i] == if on_dogleg((x1, y1), (x2, y2), horizontal_first, pos_of(old(map).width as int, i)) {
            TileType::Floor
        } else {
            before[i]
        } by {}
    } else {
        apply_vertical_tunnel(map, y1, y2, x1);
        apply_horizontal_tunnel(map, x1, x2, y2);
        assert forall|i: int| 0 <= i < before.len() implies #[trigger] map.tiles@[i] == if on_dogleg((x1, y1), (x2, y2), horizontal_first, pos_of(old(map).width as int, i)) {
            TileType::Floor
        } else {
            before[i]
        } by {}
    }
}

/// Whether `room` overlaps or touches any of `rooms`.
fn intersects_any(rooms: &Vec<Rect>, room: &Rect) -> (r: bool)
    ensures
        r == exists|j: int| 0 <= j < rooms@.len() && rects_intersect(*room, #[trigger] rooms@[j]),
{
    let mut j: usize = 0;
    while j < rooms.len()
        invariant
            j <= rooms@.len(),
            forall|k: int| 0 <= k < j ==> !rects_intersect(*room, #[trigger] rooms@[k]),
        decreases rooms@.len() - j,
    {
        if room.intersect(&rooms[j]) {
            return true;
        }
        j = j + 1;
    }
    false
}

/// Whether `p` was carved by the rooms `rs`: it lies inside a room, or on
/// the corridor from the previous room's center to that room's center, bent
/// as `dirs` says.
pub open spec fn carved_at(rs: Seq<Rect>, dirs: Seq<bool>, p: (u32, u32)) -> bool {
    exists|j: int| 0 <= j < rs.len() && #[trigger] carved_by(rs, dirs, j, p)
}

/// Whether `p` lies inside room `j` or on the corridor that joins it to room `j - 1`.
pub open spec fn carved_by(rs: Seq<Rect>, dirs: Seq<bool>, j: int, p: (u32, u32)) -> bool {
    in_interior(rs[j], p) || (j >= 1 && on_dogleg(center_of(rs[j - 1]), center_of(rs[j]), dirs[j], p))
}

/// Whether `room` has sides between `min` and `max` and lies inside the
/// map with a margin of at least one tile on its right and bottom.
pub open spec fn room_fits(room: Rect, min: int, max: int, width: int, height: int) -> bool {
    &&& room.wf()
    &&& min <= room.x2 - room.x1 <= max
    &&& min <= room.y2 - room.y1 <= max
    &&& room.x2 + 1 < width
    &&& room.y2 + 1 < height
}

/// Lays out rectangular rooms joined by L-shaped corridors.
#[derive(Debug)]
pub struct SimpleMapBuilder {
    max_rooms: u32,
    min_size: u32,
    max_size: u32,
}

impl SimpleMapBuilder {
    pub fn new(max_rooms: u32, min_size: u32, max_size: u32) -> (r: SimpleMapBuilder)
        ensures
            r.room_attempts() == max_rooms,
            r.smallest() == min_size,
            r.largest() == max_size,
    {
        SimpleMapBuilder { max_rooms, min_size, max_size }
    }

    /// How many rooms are proposed.
    pub closed spec fn room_attempts(&self) -> nat {
        self.max_rooms as nat
    }

    /// The smallest side length of a room.
    pub closed spec fn smallest(&self) -> nat {
        self.min_size as nat
    }

    /// The largest side length of a room.
    pub closed spec fn largest(&self) -> nat {
        self.max_size as nat
    }

    /// Builds the map with [`Self::rooms_and_corridors`].
    pub fn build_map(&self, rng: &mut rand::rngs::StdRng, build_data: &mut MapBuildData) -> (r: Result<(), BuildError>)
        requires
            old(build_data).wf(),
        ensures
            Self::rooms_built(*self, *old(build_data), *final(build_data), r),
    {
        self.rooms_and_corridors(rng, build_data)
    }

    /// What [`Self::rooms_and_corridors`] guarantees of its result.
    pub open spec fn rooms_built(self, before: MapBuildData, after: MapBuildData, r: Result<(), BuildError>) -> bool {
        &&& after.wf()
        &&& after.map.width == before.map.width
        &&& after.map.height == before.map.height
        &&& after.metadata.starting_position == before.metadata.starting_position
        &&& after.metadata.regions == before.metadata.regions
        &&& after.metadata.spawn_list == before.metadata.spawn_list
        &&& (r is Err <==> !(self.smallest() <= self.largest() && self.largest() + 2 <= before.map.width
            && self.largest() + 2 <= before.map.height))
        &&& (r is Err ==> r == Err::<(), BuildError>(BuildError::RoomsDoNotFit) && after == before)
        &&& (r is Ok ==> {
            let rs = rooms_view(after.metadata.rooms)->0;
            &&& after.metadata.rooms is Some
            &&& rs.len() <= self.room_attempts()
            &&& (self.room_attempts() > 0 ==> rs.len() >= 1)
            &&& after.history@.len() == before.history@.len() + rs.len()
            &&& forall|i: int, j: int| 0 <= i < j < rs.len() ==> !rects_intersect(rs[i], rs[j])
            &&& forall|i: int| 0 <= i < rs.len() ==> room_fits(#[trigger] rs[i], self.smallest() as int, self.largest() as int,
                before.map.width as int, before.map.height as int)
            &&& exists|dirs: Seq<bool>| dirs.len() == rs.len() && forall|i: int| 0 <= i < before.map.tiles@.len() ==>
                #[trigger] after.map.tiles@[i] == if carved_at(rs, dirs, pos_of(before.map.width as int, i)) {
                    TileType::Floor
                } else {
                    before.map.tiles@[i]
                }
        })
    }

    /// Proposes `max_rooms` rooms of random size and position; each that
    /// neither overlaps nor touches an earlier one is carved out, joined to
    /// the previous one by a corridor bent at random, and recorded in the
    /// rooms. Fails when the sizes are inverted or the largest room does not
    /// fit.
    pub fn rooms_and_corridors(&self, rng: &mut rand::rngs::StdRng, build_data: &mut MapBuildData) -> (r: Result<(), BuildError>)
        requires
            old(build_data).wf(),
        ensures
            Self::rooms_built(*self, *old(build_data), *final(build_data), r),
    {
        let width = build_data.map.width;
        let height = build_data.map.height;
        if !(self.min_size <= self.max_size && (self.max_size as u64) + 2 <= width as u64
            && (self.max_size as u64) + 2 <= height as u64) {
            return Err(BuildError::RoomsDoNotFit);
        }
        let ghost start = *build_data;
        let ghost w = width as int;
        let ghost len = build_data.map.tiles@.len();
        let ghost mut dirs: Seq<bool> = Seq::empty();
        let mut rooms: Vec<Rect> = Vec::new();
        let mut attempt: u32 = 0;
        while attempt < self.max_rooms
            invariant
                build_data.wf(),
                build_data.map.width == width,
                build_data.map.height == height,
                width == start.map.width,
                height == start.map.height,
                w == width,
                len == start.map.tiles@.len(),
                len == build_data.map.tiles@.len(),
                self.min_size <= self.max_size,
                (self.max_size as u64) + 2 <= width as u64,
                (self.max_size as u64) + 2 <= height as u64,
                build_data.metadata == start.metadata,
                build_data.history@.len() == start.history@.len() + rooms@.len(),
                attempt <= self.max_rooms,
                rooms@.len() <= attempt,
                attempt > 0 ==> rooms@.len() > 0,
                dirs.len() == rooms@.len(),
                forall|i: int, j: int| 0 <= i < j < rooms@.len() ==> !rects_intersect(rooms@[i], rooms@[j]),
                forall|i: int| 0 <= i < rooms@.len() ==> room_fits(#[trigger] rooms@[i], self.min_size as int, self.max_size as int,
                    width as int, height as int),
                forall|i: int| 0 <= i < len ==> #[trigger] build_data.map.tiles@[i] == if carved_at(rooms@, dirs, pos_of(w, i)) {
                    TileType::Floor
                } else {
                    start.map.tiles@[i]
                },
            decreases self.max_rooms - attempt,
        {
            let rw = gen_range(rng, self.min_size as u64, self.max_size as u64 + 1) as u32;
            let rh = gen_range(rng, self.min_size as u64, self.max_size as u64 + 1) as u32;
            let x = gen_range(rng, 0, (width - rw - 1) as u64) as u32;
            let y = gen_range(rng, 0, (height - rh - 1) as u64) as u32;
            let new_room = Rect::new(x, y, rw, rh);
            if !intersects_any(&rooms, &new_room) {
                let ghost before = build_data.map.tiles@;
                let ghost old_rooms = rooms@;
                apply_room_to_map(&mut build_data.map, &new_room);
                let ghost mid = build_data.map.tiles@;
                let mut hf = false;
                if rooms.len() > 0 {
                    let (new_x, new_y) = new_room.center();
                    let (prev_x, prev_y) = rooms[rooms.len() - 1].center();
                    hf = gen_ratio(rng, 1, 2);
                    apply_tunnel(&mut build_data.map, prev_x, prev_y, new_x, new_y, hf);
                }
                rooms.push(new_room);
                proof {
                    let old_dirs = dirs;
                    dirs = dirs.push(hf);
                    let n = old_rooms.len() as int;
                    assert forall|i: int| 0 <= i < len implies #[trigger] build_data.map.tiles@[i] == if carved_at(rooms@, dirs, pos_of(w, i)) {
                        TileType::Floor
                    } else {
                        start.map.tiles@[i]
                    } by {
                        let p = pos_of(w, i);
                        assert(mid[i] == if in_interior(new_room, p) { TileType::Floor } else { before[i] });
                        if carved_at(old_rooms, old_dirs, p) {
                            let j = choose|j: int| 0 <= j < old_rooms.len() && #[trigger] carved_by(old_rooms, old_dirs, j, p);
                            assert(rooms@[j] == old_rooms[j]);
                            if j >= 1 {
                                assert(rooms@[j - 1] == old_rooms[j - 1]);
                            }
                            assert(carved_by(rooms@, dirs, j, p));
                        }
                        if carved_by(rooms@, dirs, n, p) {
                            assert(carved_at(rooms@, dirs, p));
                        }
                        if carved_at(rooms@, dirs, p) {
                            let j = choose|j: int| 0 <= j < rooms@.len() && #[trigger] carved_by(rooms@, dirs, j, p);
                            if j < n {
                                assert(rooms@[j] == old_rooms[j]);
                                if j >= 1 {
                                    assert(rooms@[j - 1] == old_rooms[j - 1]);
                                }
                                assert(carved_by(old_rooms, old_dirs, j, p));
                            }
                        }
                    }
                    assert forall|i: int, j: int| 0 <= i < j < rooms@.len() implies !rects_intersect(rooms@[i], rooms@[j]) by {
                        if j == n {
                            assert(!rects_intersect(new_room, old_rooms[i]));
                        }
                    }
                }
                build_data.take_snapshot();
            }
            attempt = attempt + 1;
        }
        build_data.metadata.rooms = Some(rooms);
        Ok(())
    }
}

/// The corridor bends that the room builder's result was carved with.
pub open spec fn carving_dirs(before: MapBuildData, after: MapBuildData) -> Seq<bool> {
    let rs = rooms_view(after.metadata.rooms)->0;
    choose|dirs: Seq<bool>| dirs.len() == rs.len() && forall|k: int| 0 <= k < before.map.tiles@.len() ==>
        #[trigger] after.map.tiles@[k] == if carved_at(rs, dirs, pos_of(before.map.width as int, k)) {
            TileType::Floor
        } else {
            before.map.tiles@[k]
        }
}

/// When every tile of the corridor from `a` to `b` is floor and a walk leads
/// from `o` to `a`, a walk leads from `o` to every tile `p` of the corridor.
pub proof fn lemma_dogleg_walk(map: GameMap, o: (u32, u32), a: (u32, u32), b: (u32, u32), horizontal_first: bool, p: (u32, u32))
    requires
        map.reachable(o, a),
        forall|q: (u32, u32)| on_dogleg(a, b, horizontal_first, q) ==> #[trigger] map.is_floor_at(q),
        on_dogleg(a, b, horizontal_first, p),
    ensures
        map.reachable(o, p),
{
    if horizontal_first {
        if p.1 == a.1 && lo(a.0, b.0) <= p.0 <= hi(a.0, b.0) {
            lemma_reach_along_row(map, o, a, p.0);
        } else {
            lemma_reach_along_row(map, o, a, b.0);
            lemma_reach_along_column(map, o, (b.0, a.1), p.1);
        }
    } else {
        if p.0 == a.0 && lo(a.1, b.1) <= p.1 <= hi(a.1, b.1) {
            lemma_reach_along_column(map, o, a, p.1);
        } else {
            lemma_reach_along_column(map, o, a, b.1);
            lemma_reach_along_row(map, o, (a.0, b.1), p.0);
        }
    }
}

/// Every tile that the room builder carved is floor.
proof fn lemma_carved_is_floor(builder: SimpleMapBuilder, before: MapBuildData, after: MapBuildData, r: Result<(), BuildError>, p: (u32, u32))
    requires
        before.wf(),
        SimpleMapBuilder::rooms_built(builder, before, after, r),
        r is Ok,
        p.0 < before.map.width,
        p.1 < before.map.height,
        carved_at(rooms_view(after.metadata.rooms)->0, carving_dirs(before, after), p),
    ensures
        after.map.is_floor_at(p),
{
    let w = before.map.width as int;
    let h = before.map.height as int;
    let k = index_of(w, p.0 as int, p.1 as int);
    lemma_index_in_range(w, h, p.0 as int, p.1 as int);
    lemma_pos_of_index(w, h, k, p);
    assert(after.map.tiles@[k] == TileType::Floor);
}

/// The corridor between rooms `i - 1` and `i` is floor.
proof fn lemma_corridor_is_floor(builder: SimpleMapBuilder, before: MapBuildData, after: MapBuildData, r: Result<(), BuildError>, i: int)
    requires
        before.wf(),
        SimpleMapBuilder::rooms_built(builder, before, after, r),
        r is Ok,
        1 <= i < rooms_view(after.metadata.rooms)->0.len(),
    ensures
        forall|q: (u32, u32)| on_dogleg(center_of(rooms_view(after.metadata.rooms)->0[i - 1]),
            center_of(rooms_view(after.metadata.rooms)->0[i]), carving_dirs(before, after)[i], q)
            ==> #[trigger] after.map.is_floor_at(q),
{
    let rs = rooms_view(after.metadata.rooms)->0;
    let dirs = carving_dirs(before, after);
    let w = before.map.width as int;
    let h = before.map.height as int;
    assert(room_fits(rs[i - 1], builder.smallest() as int, builder.largest() as int, w, h));
    assert(room_fits(rs[i], builder.smallest() as int, builder.largest() as int, w, h));
    assert forall|q: (u32, u32)| on_dogleg(center_of(rs[i - 1]), center_of(rs[i]), dirs[i], q)
        implies #[trigger] after.map.is_floor_at(q) by {
        assert(carved_by(rs, dirs, i, q));
        lemma_carved_is_floor(builder, before, after, r, q);
    }
}

/// The room builder joins each room to the one before it: a walk over floor
/// tiles leads from the previous room's center to its center.
pub proof fn lemma_rooms_joined(
    builder: SimpleMapBuilder,
    before: MapBuildData,
    after: MapBuildData,
    r: Result<(), BuildError>,
    i: int,
)
    requires
        before.wf(),
        SimpleMapBuilder::rooms_built(builder, before, after, r),
        r is Ok,
        1 <= i < rooms_view(after.metadata.rooms)->0.len(),
    ensures
        after.map.reachable(
            center_of(rooms_view(after.metadata.rooms)->0[i - 1]),
            center_of(rooms_view(after.metadata.rooms)->0[i]),
        ),
{
    let rs = rooms_view(after.metadata.rooms)->0;
    let a = center_of(rs[i - 1]);
    let b = center_of(rs[i]);
    let hf = carving_dirs(before, after)[i];
    lemma_corridor_is_floor(builder, before, after, r, i);
    lemma_reach_self(after.map, a);
    assert(on_dogleg(a, b, hf, b));
    lemma_dogleg_walk(after.map, a, a, b, hf, b);
}

/// A walk over floor tiles leads from the first room's center to every
/// room's center.
proof fn lemma_centers_reachable(
    builder: SimpleMapBuilder,
    before: MapBuildData,
    after: MapBuildData,
    r: Result<(), BuildError>,
    j: int,
)
    requires
        before.wf(),
        SimpleMapBuilder::rooms_built(builder, before, after, r),
        r is Ok,
        0 <= j < rooms_view(after.metadata.rooms)->0.len(),
    ensures
        after.map.reachable(center_of(rooms_view(after.metadata.rooms)->0[0]), center_of(rooms_view(after.metadata.rooms)->0[j])),
    decreases j,
{
    let rs = rooms_view(after.metadata.rooms)->0;
    if j == 0 {
        lemma_reach_self(after.map, center_of(rs[0]));
    } else {
        lemma_centers_reachable(builder, before, after, r, j - 1);
        lemma_corridor_is_floor(builder, before, after, r, j);
        let hf = carving_dirs(before, after)[j];
        assert(on_dogleg(center_of(rs[j - 1]), center_of(rs[j]), hf, center_of(rs[j])));
        lemma_dogleg_walk(after.map, center_of(rs[0]), center_of(rs[j - 1]), center_of(rs[j]), hf, center_of(rs[j]));
    }
}

/// On a map that was all wall before, the room builder leaves one connected
/// cave: a walk over floor tiles leads from the first room's center to every
/// floor tile (rooms are at least two tiles wide and high).
pub proof fn lemma_floor_connected(
    builder: SimpleMapBuilder,
    before: MapBuildData,
    after: MapBuildData,
    r: Result<(), BuildError>,
    p: (u32, u32),
)
    requires
        before.wf(),
        forall|k: int| 0 <= k < before.map.tiles@.len() ==> before.map.tiles@[k] == TileType::Wall,
        SimpleMapBuilder::rooms_built(builder, before, after, r),
        r is Ok,
        builder.smallest() >= 2,
        after.map.is_floor_at(p),
    ensures
        rooms_view(after.metadata.rooms)->0.len() >= 1,
        after.map.reachable(center_of(rooms_view(after.metadata.rooms)->0[0]), p),
{
    let rs = rooms_view(after.metadata.rooms)->0;
    let dirs = carving_dirs(before, after);
    let w = before.map.width as int;
    let h = before.map.height as int;
    let k = index_of(w, p.0 as int, p.1 as int);
    lemma_index_in_range(w, h, p.0 as int, p.1 as int);
    lemma_pos_of_index(w, h, k, p);
    assert(after.map.tiles@[k] == TileType::Floor);
    assert(carved_at(rs, dirs, p));
    let j = choose|j: int| 0 <= j < rs.len() && #[trigger] carved_by(rs, dirs, j, p);
    assert(room_fits(rs[j], builder.smallest() as int, builder.largest() as int, w, h));
    if in_interior(rs[j], p) {
        let c = center_of(rs[j]);
        lemma_centers_reachable(builder, before, after, r, j);
        assert forall|q: (u32, u32)| in_interior(rs[j], q) implies #[trigger] after.map.is_floor_at(q) by {
            assert(carved_by(rs, dirs, j, q));
            lemma_carved_is_floor(builder, before, after, r, q);
        }
        assert forall|q: (u32, u32)| q.1 == c.1 && (if c.0 <= p.0 { c.0 <= q.0 <= p.0 } else { p.0 <= q.0 <= c.0 })
            implies #[trigger] after.map.is_floor_at(q) by {
            assert(in_interior(rs[j], q));
        }
        lemma_reach_along_row(after.map, center_of(rs[0]), c, p.0);
        assert forall|q: (u32, u32)| q.0 == p.0 && (if c.1 <= p.1 { c.1 <= q.1 <= p.1 } else { p.1 <= q.1 <= c.1 })
            implies #[trigger] after.map.is_floor_at(q) by {
            assert(in_interior(rs[j], q));
        }
        lemma_reach_along_column(after.map, center_of(rs[0]), (p.0, c.1), p.1);
    } else {
        lemma_centers_reachable(builder, before, after, r, j - 1);
        lemma_corridor_is_floor(builder, before, after, r, j);
        lemma_dogleg_walk(after.map, center_of(rs[0]), center_of(rs[j - 1]), center_of(rs[j]), dirs[j], p);
    }
}

} // verus!
