//! The generation pipeline: one initial builder followed by modifiers, all
//! working on a shared [`MapBuildData`].

pub mod arbitrary_starting_point;
pub mod cellular_builder;
pub mod cull_unreachable;
pub mod general_objective_spawner;
pub mod random_table;
pub mod region_based_builders;
pub mod room_based_builders;
pub mod simple_map_builder;
pub mod rect;
pub mod spawner;

use crate::map::GameMap;
use crate::rng::seeded_rng;
use arbitrary_starting_point::ArbitraryStartingPoint;
use cellular_builder::CellularAutomataBuilder;
use cull_unreachable::CullUnreachable;
use general_objective_spawner::GeneralObjectiveSpawner;
use rect::Rect;
use region_based_builders::{DistanceFunction, RegionBasedSpawner, VoronoiRegion};
use room_based_builders::{
    PositionSelectionMode, RoomBasedObjectiveSpawner, RoomBasedSpawner, RoomBasedStartingPosition, RoomSelectionMode,
};
use simple_map_builder::SimpleMapBuilder;
use spawner::{SpawnList, Spawnables};
use vstd::prelude::*;

verus! {

/// A set of floor positions that modifiers may spawn into.
pub type Region = Vec<(u32, u32)>;

/// Why a pipeline run was aborted.
#[derive(Debug, Clone, Copy, PartialEq, Eq, Structural)]
pub enum BuildError {
    /// The map holds no floor tile to place something on.
    NoFloorTile,
    /// A modifier needs a starting position and none was chosen.
    MissingStartingPosition,
    /// A modifier needs the rooms of a room builder and there are none.
    MissingRooms,
    /// A modifier needs regions and none were partitioned.
    MissingRegions,
    /// A position inside a room was asked for and the room has no interior.
    EmptyRoom,
    /// The room builder's smallest size exceeds its largest, or its largest
    /// room does not fit inside the map.
    RoomsDoNotFit,
}

/// Abstract properties of a map that decide what is placed where.
#[derive(Debug)]
pub struct MapMetadata {
    pub starting_position: Option<(u32, u32)>,
    pub rooms: Option<Vec<Rect>>,
    pub regions: Option<Vec<Region>>,
    pub spawn_list: SpawnList,
}

/// The rooms as a sequence, if there are any.
pub open spec fn rooms_view(rooms: Option<Vec<Rect>>) -> Option<Seq<Rect>> {
    match rooms {
        Some(v) => Some(v@),
        None => None,
    }
}

/// The regions as sequences of positions, if there are any.
pub open spec fn regions_view(regions: Option<Vec<Region>>) -> Option<Seq<Seq<(u32, u32)>>> {
    match regions {
        Some(v) => Some(regions_seq(v)),
        None => None,
    }
}

/// Each region as a sequence of positions.
pub open spec fn regions_seq(v: Vec<Region>) -> Seq<Seq<(u32, u32)>> {
    v@.map_values(|r: Region| r@)
}

/// Two metadata values that hold the same contents.
pub open spec fn same_metadata(a: MapMetadata, b: MapMetadata) -> bool {
    &&& a.starting_position == b.starting_position
    &&& rooms_view(a.rooms) == rooms_view(b.rooms)
    &&& regions_view(a.regions) == regions_view(b.regions)
    &&& a.spawn_list@ == b.spawn_list@
}

fn copy_region(region: &Region) -> (r: Region)
    ensures
        r@ == region@,
{
    let mut out: Region = Vec::with_capacity(region.len());
    let mut i: usize = 0;
    while i < region.len()
        invariant
            i <= region@.len(),
            out@ == region@.subrange(0, i as int),
        decreases region@.len() - i,
    {
        out.push(region[i]);
        assert(out@ =~= region@.subrange(0, i + 1));
        i = i + 1;
    }
    assert(out@ =~= region@);
    out
}

fn copy_regions(regions: &Vec<Region>) -> (r: Vec<Region>)
    ensures
        regions_seq(r) == regions_seq(*regions),
{
    let mut out: Vec<Region> = Vec::with_capacity(regions.len());
    let mut i: usize = 0;
    while i < regions.len()
        invariant
            i <= regions@.len(),
            out@.len() == i,
            regions_seq(out) == regions_seq(*regions).subrange(0, i as int),
        decreases regions@.len() - i,
    {
        let c = copy_region(&regions[i]);
        let ghost prev = out@;
        out.push(c);
        assert forall|k: int| 0 <= k < i + 1 implies #[trigger] out@[k]@ == regions@[k]@ by {
            if k < i {
                assert(out@[k] == prev[k]);
                assert(regions_seq(*regions).subrange(0, i as int)[k] == regions@[k]@);
            }
        }
        assert(regions_seq(out) =~= regions_seq(*regions).subrange(0, i + 1));
        i = i + 1;
    }
    assert(regions_seq(out) =~= regions_seq(*regions));
    out
}

fn copy_rooms(rooms: &Vec<Rect>) -> (r: Vec<Rect>)
    ensures
        r@ == rooms@,
{
    let mut out: Vec<Rect> = Vec::with_capacity(rooms.len());
    let mut i: usize = 0;
    while i < rooms.len()
        invariant
            i <= rooms@.len(),
            out@ == rooms@.subrange(0, i as int),
        decreases rooms@.len() - i,
    {
        out.push(rooms[i]);
        assert(out@ =~= rooms@.subrange(0, i + 1));
        i = i + 1;
    }
    assert(out@ =~= rooms@);
    out
}

impl MapMetadata {
    /// A copy of this metadata.
    pub fn duplicate(&self) -> (r: MapMetadata)
        ensures
            same_metadata(r, *self),
    {
        let rooms = match &self.rooms {
            Some(v) => Some(copy_rooms(v)),
            None => None,
        };
        let regions = match &self.regions {
            Some(v) => Some(copy_regions(v)),
            None => None,
        };
        MapMetadata {
            starting_position: self.starting_position,
            rooms,
            regions,
            spawn_list: self.spawn_list.duplicate(),
        }
    }

    /// Metadata with nothing set yet.
    pub fn new() -> (r: MapMetadata)
        ensures
            r.starting_position is None,
            r.rooms is None,
            r.regions is None,
            r.spawn_list@ == Map::<(u32, u32), spawner::Spawnables>::empty(),
    {
        MapMetadata { starting_position: None, rooms: None, regions: None, spawn_list: SpawnList::new() }
    }
}

/// The map being built, its metadata, and snapshots taken after each stage.
#[derive(Debug)]
pub struct MapBuildData {
    pub map: GameMap,
    pub metadata: MapMetadata,
    pub history: Vec<(GameMap, MapMetadata)>,
}

impl MapBuildData {
    /// The map is well formed.
    pub open spec fn wf(&self) -> bool {
        self.map.wf()
    }

    /// Build data for an all-wall map of the given dimensions.
    pub fn new(width: u32, height: u32) -> (r: MapBuildData)
        requires
            width > 0,
            height > 0,
            width * height <= u32::MAX,
        ensures
            r.wf(),
            r.map.width == width,
            r.map.height == height,
            forall|i: int| 0 <= i < r.map.tiles@.len() ==> r.map.tiles@[i] == crate::map::TileType::Wall,
            r.metadata.starting_position is None,
            r.metadata.rooms is None,
            r.metadata.regions is None,
            r.metadata.spawn_list@ == Map::<(u32, u32), spawner::Spawnables>::empty(),
            r.history@.len() == 0,
    {
        MapBuildData { map: GameMap::new(width, height), metadata: MapMetadata::new(), history: Vec::new() }
    }

    /// Adds a copy of the current map and metadata to the history.
    pub fn take_snapshot(&mut self)
        ensures
            final(self).map == old(self).map,
            final(self).metadata == old(self).metadata,
            final(self).history@.len() == old(self).history@.len() + 1,
            final(self).history@.subrange(0, old(self).history@.len() as int) == old(self).history@,
            final(self).history@.last().0.tiles@ == old(self).map.tiles@,
            final(self).history@.last().0.width == old(self).map.width,
            final(self).history@.last().0.height == old(self).map.height,
            same_metadata(final(self).history@.last().1, old(self).metadata),
    {
        let snapshot = (self.map.duplicate(), self.metadata.duplicate());
        self.history.push(snapshot);
        assert(self.history@.subrange(0, old(self).history@.len() as int) =~= old(self).history@);
    }
}

/// The builder that lays out the base map; a chain has exactly one.
#[derive(Debug)]
pub enum InitialMapBuilder {
    Rooms(SimpleMapBuilder),
    Cellular(CellularAutomataBuilder),
}

impl InitialMapBuilder {
    /// What a run of the builder does: `before` becomes `after`, with the outcome `r`.
    pub open spec fn applied(&self, before: MapBuildData, after: MapBuildData, r: Result<(), BuildError>) -> bool {
        match *self {
            InitialMapBuilder::Rooms(b) => SimpleMapBuilder::rooms_built(b, before, after, r),
            InitialMapBuilder::Cellular(b) => r is Ok && b.built(before, after),
        }
    }

    /// Runs the builder on `build_data`.
    pub fn build_map(&self, rng: &mut rand::rngs::StdRng, build_data: &mut MapBuildData) -> (r: Result<(), BuildError>)
        requires
            old(build_data).wf(),
        ensures
            final(build_data).wf(),
            final(build_data).map.width == old(build_data).map.width,
            final(build_data).map.height == old(build_data).map.height,
            self.applied(*old(build_data), *final(build_data), r),
    {
        match self {
            InitialMapBuilder::Rooms(b) => b.build_map(rng, build_data),
            InitialMapBuilder::Cellular(b) => {
                b.build_map(rng, build_data);
                Ok(())
            },
        }
    }
}

/// A stage applied after the initial builder.
#[derive(Debug)]
pub enum MapModifier {
    ArbitraryStartingPoint(ArbitraryStartingPoint),
    CullUnreachable(CullUnreachable),
    GeneralObjectiveSpawner(GeneralObjectiveSpawner),
    VoronoiRegion(VoronoiRegion),
    RegionBasedSpawner(RegionBasedSpawner),
    RoomBasedSpawner(RoomBasedSpawner),
    RoomBasedStartingPosition(RoomBasedStartingPosition),
    RoomBasedObjectiveSpawner(RoomBasedObjectiveSpawner),
}

impl MapModifier {
    /// What a run of the modifier does: `before` becomes `after`, with the outcome `r`.
    pub open spec fn applied(&self, before: MapBuildData, after: MapBuildData, r: Result<(), BuildError>) -> bool {
        match *self {
            MapModifier::ArbitraryStartingPoint(m) => m.modified(before, after, r),
            MapModifier::CullUnreachable(m) => m.modified(before, after, r),
            MapModifier::GeneralObjectiveSpawner(m) => m.modified(before, after, r),
            MapModifier::VoronoiRegion(m) => r is Ok && m.modified(before, after),
            MapModifier::RegionBasedSpawner(m) => m.modified(before, after, r),
            MapModifier::RoomBasedSpawner(m) => m.modified(before, after, r),
            MapModifier::RoomBasedStartingPosition(m) => m.modified(before, after, r),
            MapModifier::RoomBasedObjectiveSpawner(m) => m.modified(before, after, r),
        }
    }

    /// Applies the modifier to `build_data` (see each modifier's own
    /// `modify_map`).
    pub fn modify_map(&self, rng: &mut rand::rngs::StdRng, build_data: &mut MapBuildData) -> (r: Result<(), BuildError>)
        requires
            old(build_data).wf(),
        ensures
            final(build_data).wf(),
            final(build_data).map.width == old(build_data).map.width,
            final(build_data).map.height == old(build_data).map.height,
            self.applied(*old(build_data), *final(build_data), r),
    {
        match self {
            MapModifier::ArbitraryStartingPoint(m) => m.modify_map(rng, build_data),
            MapModifier::CullUnreachable(m) => m.modify_map(build_data),
            MapModifier::GeneralObjectiveSpawner(m) => m.modify_map(rng, build_data),
            MapModifier::VoronoiRegion(m) => {
                m.modify_map(rng, build_data);
                Ok(())
            },
            MapModifier::RegionBasedSpawner(m) => m.modify_map(rng, build_data),
            MapModifier::RoomBasedSpawner(m) => m.modify_map(rng, build_data),
            MapModifier::RoomBasedStartingPosition(m) => m.modify_map(rng, build_data),
            MapModifier::RoomBasedObjectiveSpawner(m) => m.modify_map(rng, build_data),
        }
    }
}

/// The state of a chain before its initial builder is attached.
#[derive(Debug)]
pub struct Uninitialized;

/// The state of a chain with its initial builder attached.
#[derive(Debug)]
pub struct HasInitial {
    builder: InitialMapBuilder,
}

/// Marks the two states a [`BuilderChain`] can be in.
pub trait InitialMapBuilderTrait {

}

impl InitialMapBuilderTrait for Uninitialized {

}

impl InitialMapBuilderTrait for HasInitial {

}

/// Width of the maps a chain builds.
pub const WIDTH: u32 = 80;

/// Height of the maps a chain builds.
pub const HEIGHT: u32 = 53;

/// A sequence of build stages: one initial builder, then modifiers in the
/// order they were added. Only a chain with its initial builder attached
/// can be run.
#[derive(Debug)]
pub struct BuilderChain<Initialized: InitialMapBuilderTrait> {
    initial: Initialized,
    modifiers: Vec<MapModifier>,
    build_data: MapBuildData,
}

impl<I: InitialMapBuilderTrait> BuilderChain<I> {
    /// The chain's build data is well formed, over a [`WIDTH`] by [`HEIGHT`] map.
    pub closed spec fn wf(&self) -> bool {
        &&& self.build_data.wf()
        &&& self.build_data.map.width == WIDTH
        &&& self.build_data.map.height == HEIGHT
    }

    /// How many modifiers the chain holds.
    pub closed spec fn modifier_count(&self) -> nat {
        self.modifiers@.len()
    }

    /// The modifiers, in the order they run.
    pub closed spec fn modifier_list(&self) -> Seq<MapModifier> {
        self.modifiers@
    }

    /// The build data the first stage starts from.
    pub closed spec fn data(&self) -> MapBuildData {
        self.build_data
    }

    /// The chain's state marker.
    pub closed spec fn state(&self) -> I {
        self.initial
    }

    /// Appends a modifier; it runs after those added before it.
    pub fn with(&mut self, modifier: MapModifier)
        ensures
            final(self).wf() == old(self).wf(),
            final(self).modifier_count() == old(self).modifier_count() + 1,
            final(self).modifier_list() == old(self).modifier_list().push(modifier),
            final(self).data() == old(self).data(),
            final(self).state() == old(self).state(),
    {
        self.modifiers.push(modifier);
    }
}

impl BuilderChain<Uninitialized> {
    /// An empty chain over an all-wall map of [`WIDTH`] by [`HEIGHT`] tiles.
    pub fn new() -> (r: BuilderChain<Uninitialized>)
        ensures
            r.wf(),
            r.modifier_count() == 0,
            r.modifier_list() == Seq::<MapModifier>::empty(),
            fresh_data(r.data()),
    {
        BuilderChain { initial: Uninitialized, modifiers: Vec::new(), build_data: MapBuildData::new(WIDTH, HEIGHT) }
    }

    /// Attaches the initial builder, keeping the modifiers added so far.
    pub fn start_with(self, initial: InitialMapBuilder) -> (r: BuilderChain<HasInitial>)
        ensures
            r.wf() == self.wf(),
            r.modifier_count() == self.modifier_count(),
            r.modifier_list() == self.modifier_list(),
            r.data() == self.data(),
            r.initial_builder() == initial,
    {
        BuilderChain { initial: HasInitial { builder: initial }, modifiers: self.modifiers, build_data: self.build_data }
    }
}

/// `trace` and `results` record a run of the stages `initial` then
/// `modifiers`: stage `k` turns `trace[k]` into `trace[k + 1]` with outcome
/// `results[k]`, every stage but the last one run succeeded, and the run
/// stopped at the first failure or after the last modifier.
pub open spec fn stages_ran(
    initial: InitialMapBuilder,
    modifiers: Seq<MapModifier>,
    trace: Seq<MapBuildData>,
    results: Seq<Result<(), BuildError>>,
) -> bool {
    &&& trace.len() == results.len() + 1
    &&& 1 <= results.len() <= modifiers.len() + 1
    &&& initial.applied(trace[0], trace[1], results[0])
    &&& forall|k: int| #![trigger modifiers[k]] 0 <= k < results.len() - 1 ==> modifiers[k].applied(trace[k + 1], trace[k + 2], results[k + 1])
    &&& forall|k: int| 0 <= k < results.len() - 1 ==> #[trigger] results[k] is Ok
}

/// What a finished run hands over: the last stage's error, or the map and
/// metadata after the last stage.
pub open spec fn run_outcome(trace: Seq<MapBuildData>, results: Seq<Result<(), BuildError>>) -> Result<(GameMap, MapMetadata), BuildError> {
    match results.last() {
        Ok(_) => Ok((trace.last().map, trace.last().metadata)),
        Err(e) => Err(e),
    }
}

impl BuilderChain<HasInitial> {
    /// The attached initial builder.
    pub closed spec fn initial_builder(&self) -> InitialMapBuilder {
        self.initial.builder
    }

    /// Runs the initial builder, then each modifier in order, and hands over
    /// the map and its metadata. The first stage that fails aborts the run
    /// with its error.
    pub fn build_map(self, rng: &mut rand::rngs::StdRng) -> (r: Result<(GameMap, MapMetadata), BuildError>)
        requires
            self.wf(),
        ensures
            r matches Ok(done) ==> done.0.wf() && done.0.width == WIDTH && done.0.height == HEIGHT,
            exists|trace: Seq<MapBuildData>, results: Seq<Result<(), BuildError>>|
                #[trigger] stages_ran(self.initial_builder(), self.modifier_list(), trace, results)
                && trace[0] == self.data()
                && (results.last() is Ok ==> results.len() == self.modifier_list().len() + 1)
                && r == run_outcome(trace, results),
    {
        let mut chain = self;
        let ghost w = chain.build_data.map.width;
        let ghost h = chain.build_data.map.height;
        let ghost mods = chain.modifiers@;
        let ghost init = chain.initial.builder;
        let ghost mut trace = seq![chain.build_data];
        let first = chain.initial.builder.build_map(rng, &mut chain.build_data);
        let ghost mut results = seq![first];
        proof {
            trace = trace.push(chain.build_data);
        }
        match first {
            Ok(()) => {},
            Err(e) => {
                assert(stages_ran(self.initial_builder(), self.modifier_list(), trace, results));
                assert(run_outcome(trace, results) == Err::<(GameMap, MapMetadata), BuildError>(e));
                return Err(e);
            },
        }
        let mut i: usize = 0;
        while i < chain.modifiers.len()
            invariant
                chain.build_data.wf(),
                chain.build_data.map.width == w,
                chain.build_data.map.height == h,
                w == WIDTH,
                h == HEIGHT,
                chain.modifiers@ == mods,
                chain.initial.builder == init,
                init == self.initial_builder(),
                mods == self.modifier_list(),
                i <= mods.len(),
                results.len() == i + 1,
                trace.len() == i + 2,
                trace.last() == chain.build_data,
                trace[0] == self.data(),
                init.applied(trace[0], trace[1], results[0]),
                forall|k: int| #![trigger mods[k]] 0 <= k < results.len() - 1 ==> mods[k].applied(trace[k + 1], trace[k + 2], results[k + 1]),
                forall|k: int| 0 <= k < results.len() ==> #[trigger] results[k] is Ok,
            decreases mods.len() - i,
        {
            let ghost before = chain.build_data;
            let outcome = chain.modifiers[i].modify_map(rng, &mut chain.build_data);
            proof {
                let ghost old_trace = trace;
                let ghost old_results = results;
                trace = trace.push(chain.build_data);
                results = results.push(outcome);
                assert(trace[0] == old_trace[0] && trace[1] == old_trace[1]);
                assert forall|k: int| #![trigger mods[k]] 0 <= k < results.len() - 1 implies mods[k].applied(trace[k + 1], trace[k + 2], results[k + 1]) by {
                    if k + 1 < old_results.len() {
                        assert(trace[k + 1] == old_trace[k + 1]);
                        assert(trace[k + 2] == old_trace[k + 2]);
                        assert(results[k + 1] == old_results[k + 1]);
                    } else {
                        assert(trace[k + 1] == before);
                    }
                }
                assert forall|k: int| 0 <= k < results.len() - 1 implies #[trigger] results[k] is Ok by {
                    assert(results[k] == old_results[k]);
                }
            }
            match outcome {
                Ok(()) => {},
                Err(e) => {
                    assert(stages_ran(self.initial_builder(), self.modifier_list(), trace, results));
                    assert(results.last() == outcome);
                    assert(run_outcome(trace, results) == Err::<(GameMap, MapMetadata), BuildError>(e));
                    return Err(e);
                },
            }
            i = i + 1;
        }
        assert(stages_ran(self.initial_builder(), self.modifier_list(), trace, results));
        assert(results.last() is Ok);
        Ok((chain.build_data.map, chain.build_data.metadata))
    }
}

/// The preset pipelines to choose from.
#[derive(Debug, Clone, Copy, PartialEq, Eq, Structural)]
pub enum MapBuilder {
    /// Rooms joined by corridors; the start is the center of the first room,
    /// each room gets up to one spawn, and a treasure chest lies somewhere
    /// in the last room.
    Rooms,
    /// Caves grown by a cellular automaton; the start is a random floor
    /// tile, unreachable floor is walled off, a treasure chest is placed,
    /// and up to three spawns go into each of ten Manhattan regions.
    Cellular,
}

/// Build data as a chain starts from: an all-wall [`WIDTH`] by [`HEIGHT`]
/// map, no metadata and no history.
pub open spec fn fresh_data(d: MapBuildData) -> bool {
    &&& d.wf()
    &&& d.map.width == WIDTH
    &&& d.map.height == HEIGHT
    &&& forall|i: int| 0 <= i < d.map.tiles@.len() ==> d.map.tiles@[i] == crate::map::TileType::Wall
    &&& d.metadata.starting_position is None
    &&& d.metadata.rooms is None
    &&& d.metadata.regions is None
    &&& d.metadata.spawn_list@ == Map::<(u32, u32), Spawnables>::empty()
    &&& d.history@.len() == 0
}

/// The stages of the rooms preset.
pub open spec fn is_rooms_preset(initial: InitialMapBuilder, mods: Seq<MapModifier>) -> bool {
    &&& initial matches InitialMapBuilder::Rooms(b) && b.room_attempts() == 10 && b.smallest() == 4 && b.largest() == 12
    &&& mods.len() == 3
    &&& mods[0] matches MapModifier::RoomBasedStartingPosition(m) && m.room_mode() == RoomSelectionMode::First
        && m.pos_mode() == PositionSelectionMode::Center
    &&& mods[1] matches MapModifier::RoomBasedSpawner(m) && m.spawn_limit() == 1
    &&& mods[2] matches MapModifier::RoomBasedObjectiveSpawner(m) && m.room_mode() == RoomSelectionMode::Last
        && m.pos_mode() == PositionSelectionMode::Random && m.objective() == Spawnables::TreasureChest
}

/// The stages of the cellular preset.
pub open spec fn is_cellular_preset(initial: InitialMapBuilder, mods: Seq<MapModifier>) -> bool {
    &&& initial matches InitialMapBuilder::Cellular(b) && b.steps() == 10 && b.floor_odds() == 40
        && b.thresholds() == seq![0i32, 5, 6, 7, 8]
    &&& mods.len() == 5
    &&& mods[0] is ArbitraryStartingPoint
    &&& mods[1] is CullUnreachable
    &&& mods[2] matches MapModifier::GeneralObjectiveSpawner(m) && m.objective() == Spawnables::TreasureChest
    &&& mods[3] matches MapModifier::VoronoiRegion(m) && m.regions_count() == 10 && m.metric() == DistanceFunction::Manhattan
    &&& mods[4] matches MapModifier::RegionBasedSpawner(m) && m.spawn_limit() == 3
}

/// The chain of stages of a preset pipeline.
pub fn preset_chain(builder: MapBuilder) -> (r: BuilderChain<HasInitial>)
    ensures
        r.wf(),
        fresh_data(r.data()),
        builder == MapBuilder::Rooms ==> is_rooms_preset(r.initial_builder(), r.modifier_list()),
        builder == MapBuilder::Cellular ==> is_cellular_preset(r.initial_builder(), r.modifier_list()),
{
    let chain = BuilderChain::new();
    match builder {
        MapBuilder::Rooms => {
            let mut chain = chain.start_with(InitialMapBuilder::Rooms(SimpleMapBuilder::new(10, 4, 12)));
            chain.with(MapModifier::RoomBasedStartingPosition(RoomBasedStartingPosition::new(
                RoomSelectionMode::First,
                PositionSelectionMode::Center,
            )));
            chain.with(MapModifier::RoomBasedSpawner(RoomBasedSpawner::new(1)));
            chain.with(MapModifier::RoomBasedObjectiveSpawner(RoomBasedObjectiveSpawner::new(
                RoomSelectionMode::Last,
                PositionSelectionMode::Random,
                Spawnables::TreasureChest,
            )));
            chain
        },
        MapBuilder::Cellular => {
            let mut thresholds: Vec<i32> = Vec::new();
            thresholds.push(0);
            thresholds.push(5);
            thresholds.push(6);
            thresholds.push(7);
            thresholds.push(8);
            assert(thresholds@ =~= seq![0i32, 5, 6, 7, 8]);
            let mut chain = chain.start_with(InitialMapBuilder::Cellular(CellularAutomataBuilder::new(10, 40, thresholds)));
            chain.with(MapModifier::ArbitraryStartingPoint(ArbitraryStartingPoint::new()));
            chain.with(MapModifier::CullUnreachable(CullUnreachable::new()));
            chain.with(MapModifier::GeneralObjectiveSpawner(GeneralObjectiveSpawner::new(Spawnables::TreasureChest)));
            chain.with(MapModifier::VoronoiRegion(VoronoiRegion::new(10, DistanceFunction::Manhattan)));
            chain.with(MapModifier::RegionBasedSpawner(RegionBasedSpawner::new(3)));
            chain
        },
    }
}

/// Generates a map with a preset pipeline from a seed: the same seed and
/// preset give the same map and metadata. The rooms preset always succeeds;
/// the cellular one fails only when its cave has no floor tile.
pub fn generate(builder: MapBuilder, seed: u64) -> (r: Result<(GameMap, MapMetadata), BuildError>)
    ensures
        r matches Ok(done) ==> done.0.wf() && done.0.width == WIDTH && done.0.height == HEIGHT,
        builder == MapBuilder::Rooms ==> r is Ok,
        builder == MapBuilder::Cellular && r is Err ==> r == Err::<(GameMap, MapMetadata), BuildError>(BuildError::NoFloorTile),
        exists|initial: InitialMapBuilder, mods: Seq<MapModifier>, trace: Seq<MapBuildData>, results: Seq<Result<(), BuildError>>|
            #[trigger] stages_ran(initial, mods, trace, results)
            && (builder == MapBuilder::Rooms ==> is_rooms_preset(initial, mods))
            && (builder == MapBuilder::Cellular ==> is_cellular_preset(initial, mods))
            && fresh_data(trace[0])
            && (results.last() is Ok ==> results.len() == mods.len() + 1)
            && r == run_outcome(trace, results),
{
    let mut rng = seeded_rng(seed);
    let chain = preset_chain(builder);
    let ghost initial = chain.initial_builder();
    let ghost mods = chain.modifier_list();
    let ghost start = chain.data();
    let r = chain.build_map(&mut rng);
    proof {
        let (trace, results) = choose|trace: Seq<MapBuildData>, results: Seq<Result<(), BuildError>>|
            #[trigger] stages_ran(initial, mods, trace, results)
            && trace[0] == start
            && (results.last() is Ok ==> results.len() == mods.len() + 1)
            && r == run_outcome(trace, results);
        assert(stages_ran(initial, mods, trace, results));
        if builder == MapBuilder::Rooms {
            lemma_rooms_preset_succeeds(initial, mods, trace, results);
        } else {
            lemma_cellular_preset_fails_only_without_floor(initial, mods, trace, results);
        }
    }
    r
}

proof fn lemma_rooms_preset_succeeds(
    initial: InitialMapBuilder,
    mods: Seq<MapModifier>,
    trace: Seq<MapBuildData>,
    results: Seq<Result<(), BuildError>>,
)
    requires
        is_rooms_preset(initial, mods),
        stages_ran(initial, mods, trace, results),
        trace[0].wf(),
        trace[0].map.width == WIDTH,
        trace[0].map.height == HEIGHT,
        results.last() is Ok ==> results.len() == mods.len() + 1,
    ensures
        results.len() == 4,
        results.last() is Ok,
{
    let b = initial->Rooms_0;
    assert(SimpleMapBuilder::rooms_built(b, trace[0], trace[1], results[0]));
    assert(results[0] is Ok);
    let rs = rooms_view(trace[1].metadata.rooms)->0;
    assert(rs.len() >= 1);
    assert forall|i: int| 0 <= i < rs.len() implies room_based_builders::has_interior(#[trigger] rs[i]) by {
        assert(simple_map_builder::room_fits(rs[i], 4, 12, 80, 53));
    }
    assert(results.len() >= 2);
    assert(mods[0].applied(trace[1], trace[2], results[1]));
    assert(results[1] is Ok);
    assert(results.len() >= 3);
    assert(mods[1].applied(trace[2], trace[3], results[2]));
    assert(rooms_view(trace[2].metadata.rooms) == rooms_view(trace[1].metadata.rooms));
    assert(results[2] is Ok);
    assert(results.len() >= 4);
    assert(mods[2].applied(trace[3], trace[4], results[3]));
    assert(rooms_view(trace[3].metadata.rooms) == rooms_view(trace[1].metadata.rooms));
    assert(results[3] is Ok);
}

proof fn lemma_cellular_preset_fails_only_without_floor(
    initial: InitialMapBuilder,
    mods: Seq<MapModifier>,
    trace: Seq<MapBuildData>,
    results: Seq<Result<(), BuildError>>,
)
    requires
        is_cellular_preset(initial, mods),
        stages_ran(initial, mods, trace, results),
        results.last() is Ok ==> results.len() == mods.len() + 1,
    ensures
        results.last() is Err ==> results.last() == Err::<(), BuildError>(BuildError::NoFloorTile),
{
    assert(results[0] is Ok);
    if results.len() >= 2 {
        assert(mods[0].applied(trace[1], trace[2], results[1]));
        if results[1] is Ok && results.len() >= 3 {
            let m = mods[0]->ArbitraryStartingPoint_0;
            assert(m.modified(trace[1], trace[2], results[1]));
            let (s0, j) = choose|start: int, j: int| 0 <= start < trace[1].map.tiles@.len()
                && #[trigger] crate::map::nearest_floor(trace[1].map.tiles@, start, j)
                && trace[2].metadata.starting_position == Some(
                    ((j % trace[1].map.width as int) as u32, (j / trace[1].map.width as int) as u32));
            assert(mods[1].applied(trace[2], trace[3], results[2]));
            assert(results[2] is Ok);
            assert(cull_unreachable::kept(trace[2].map, trace[2].metadata.starting_position->0, j));
            assert(trace[3].map.tiles@[j] == crate::map::TileType::Floor);
            if results.len() >= 4 {
                assert(mods[2].applied(trace[3], trace[4], results[3]));
                assert(crate::map::has_floor(trace[3].map.tiles@));
                assert(results[3] is Ok);
                if results.len() >= 5 {
                    assert(mods[3].applied(trace[4], trace[5], results[4]));
                    if results.len() >= 6 {
                        assert(mods[4].applied(trace[5], trace[6], results[5]));
                        assert(results[5] is Ok);
                    }
                }
            }
        }
    }
}

} // verus!
