use rand::SeedableRng;
use roguelike::map::{GameMap, TileType};
use roguelike::map_builder::arbitrary_starting_point::ArbitraryStartingPoint;
use roguelike::map_builder::cellular_builder::{automaton_step_of, CellularAutomataBuilder};
use roguelike::map_builder::cull_unreachable::CullUnreachable;
use roguelike::map_builder::general_objective_spawner::GeneralObjectiveSpawner;
use roguelike::map_builder::rect::Rect;
use roguelike::map_builder::region_based_builders::{DistanceFunction, RegionBasedSpawner, VoronoiRegion};
use roguelike::map_builder::room_based_builders::{
    PositionSelectionMode, RoomBasedObjectiveSpawner, RoomBasedSpawner, RoomBasedStartingPosition, RoomSelectionMode,
};
use roguelike::map_builder::simple_map_builder::SimpleMapBuilder;
use roguelike::map_builder::spawner::Spawnables;
use roguelike::map_builder::{BuildError, MapBuildData};

fn data_from(rows: &[&str]) -> MapBuildData {
    let mut data = MapBuildData::new(rows[0].len() as u32, rows.len() as u32);
    for (y, row) in rows.iter().enumerate() {
        for (x, c) in row.chars().enumerate() {
            if c == '.' {
                let idx = data.map.xy_to_idx(x as u32, y as u32).unwrap();
                data.map.tiles[idx] = TileType::Floor;
            }
        }
    }
    data
}

fn floor_count(map: &GameMap) -> usize {
    map.tiles.iter().filter(|t| **t == TileType::Floor).count()
}

fn rng(seed: u64) -> rand::rngs::StdRng {
    rand::rngs::StdRng::seed_from_u64(seed)
}

#[test]
fn cull_walls_off_what_the_start_cannot_reach() {
    let mut data = data_from(&["######", "#..#.#", "#.##.#", "######"]);
    data.metadata.starting_position = Some((1, 1));
    assert_eq!(CullUnreachable::new().modify_map(&mut data), Ok(()));
    assert_eq!(floor_count(&data.map), 3);
    assert_eq!(data.map.tiles[data.map.xy_to_idx(4, 1).unwrap()], TileType::Wall);
    assert_eq!(data.map.tiles[data.map.xy_to_idx(2, 1).unwrap()], TileType::Floor);
    assert_eq!(data.history.len(), 1);
}

#[test]
fn cull_ignores_diagonal_neighbours() {
    let mut data = data_from(&["####", "#.##", "##.#", "####"]);
    data.metadata.starting_position = Some((1, 1));
    CullUnreachable::new().modify_map(&mut data).unwrap();
    assert_eq!(floor_count(&data.map), 1);
}

#[test]
fn cull_needs_a_starting_position() {
    let mut data = data_from(&["###", "#.#", "###"]);
    assert_eq!(CullUnreachable::new().modify_map(&mut data), Err(BuildError::MissingStartingPosition));
    assert_eq!(floor_count(&data.map), 1);
}

#[test]
fn starting_point_lands_on_floor() {
    for seed in 0..20 {
        let mut data = data_from(&["#####", "#..##", "###.#", "#####"]);
        assert_eq!(ArbitraryStartingPoint::new().modify_map(&mut rng(seed), &mut data), Ok(()));
        let (x, y) = data.metadata.starting_position.unwrap();
        assert_eq!(data.map.tiles[data.map.xy_to_idx(x, y).unwrap()], TileType::Floor);
    }
}

#[test]
fn starting_point_needs_a_floor_tile() {
    let mut data = MapBuildData::new(4, 4);
    assert_eq!(ArbitraryStartingPoint::new().modify_map(&mut rng(0), &mut data), Err(BuildError::NoFloorTile));
    assert_eq!(data.metadata.starting_position, None);
}

#[test]
fn objective_lands_on_the_only_floor_tile() {
    let mut data = data_from(&["####", "##.#", "####"]);
    let spawner = GeneralObjectiveSpawner::new(Spawnables::TreasureChest);
    assert_eq!(spawner.modify_map(&mut rng(5), &mut data), Ok(()));
    assert_eq!(data.metadata.spawn_list.get((2, 1)), Some(Spawnables::TreasureChest));
    assert_eq!(data.metadata.spawn_list.len(), 1);
    let mut walls = MapBuildData::new(3, 3);
    assert_eq!(spawner.modify_map(&mut rng(5), &mut walls), Err(BuildError::NoFloorTile));
}

#[test]
fn closest_point_under_each_metric() {
    let points = [(0, 0), (3, 4), (5, 0)];
    let euclid = VoronoiRegion::new(3, DistanceFunction::Euclidean);
    let manhattan = VoronoiRegion::new(3, DistanceFunction::Manhattan);
    let maximum = VoronoiRegion::new(3, DistanceFunction::Maximum);
    assert_eq!(euclid.find_closest_point((3, 2), &points), 1);
    assert_eq!(manhattan.find_closest_point((4, 1), &points), 2);
    assert_eq!(maximum.find_closest_point((2, 2), &points), 0);
    // (2, 2) is at Chebyshev distance 2 from (0, 0) and 2 from (3, 4): the first wins.
    assert_eq!(maximum.find_closest_point((2, 2), &[(3, 4), (0, 0)]), 0);
}

#[test]
fn partition_assigns_every_interior_floor_tile_once() {
    let data = data_from(&["######", "#....#", "#.##.#", "#....#", "######"]);
    let voronoi = VoronoiRegion::new(2, DistanceFunction::Manhattan);
    let seeds = [(1, 1), (4, 3)];
    let regions = voronoi.partition(&data.map, &seeds);
    assert_eq!(regions.len(), 2);
    let total: usize = regions.iter().map(|r| r.len()).sum();
    assert_eq!(total, floor_count(&data.map));
    assert_eq!(regions[0], vec![(1, 1), (1, 2), (1, 3), (2, 1), (3, 1)]);
    assert_eq!(regions[1], vec![(2, 3), (3, 3), (4, 1), (4, 2), (4, 3)]);
}

#[test]
fn voronoi_keeps_empty_regions() {
    let mut data = data_from(&["#####", "#...#", "#####"]);
    VoronoiRegion::new(4, DistanceFunction::Euclidean).modify_map(&mut rng(2), &mut data);
    let regions = data.metadata.regions.as_ref().unwrap();
    assert_eq!(regions.len(), 4);
    assert_eq!(regions.iter().map(|r| r.len()).sum::<usize>(), 3);
}

#[test]
fn region_spawner_needs_regions() {
    let mut data = data_from(&["###", "#.#", "###"]);
    assert_eq!(RegionBasedSpawner::new(3).modify_map(&mut rng(0), &mut data), Err(BuildError::MissingRegions));
}

#[test]
fn region_spawner_snapshots_each_region() {
    let mut data = data_from(&["#######", "#.....#", "#.....#", "#######"]);
    VoronoiRegion::new(3, DistanceFunction::Maximum).modify_map(&mut rng(8), &mut data);
    let before = data.history.len();
    RegionBasedSpawner::new(3).modify_map(&mut rng(8), &mut data).unwrap();
    assert_eq!(data.history.len(), before + 3);
    assert!(data.metadata.spawn_list.len() <= 9);
    for (p, _) in data.metadata.spawn_list.to_vec() {
        assert_eq!(data.map.tiles[data.map.xy_to_idx(p.0, p.1).unwrap()], TileType::Floor);
    }
}

#[test]
fn room_modifiers_need_rooms() {
    let mut data = MapBuildData::new(10, 10);
    let start = RoomBasedStartingPosition::new(RoomSelectionMode::First, PositionSelectionMode::Center);
    assert_eq!(start.modify_map(&mut rng(0), &mut data), Err(BuildError::MissingRooms));
    assert_eq!(RoomBasedSpawner::new(1).modify_map(&mut rng(0), &mut data), Err(BuildError::MissingRooms));
    data.metadata.rooms = Some(Vec::new());
    assert_eq!(start.modify_map(&mut rng(0), &mut data), Err(BuildError::MissingRooms));
}

#[test]
fn room_starting_position_at_the_center_of_the_first_room() {
    let mut data = MapBuildData::new(20, 20);
    data.metadata.rooms = Some(vec![Rect::new(2, 2, 5, 4), Rect::new(10, 10, 4, 4)]);
    let start = RoomBasedStartingPosition::new(RoomSelectionMode::First, PositionSelectionMode::Center);
    start.modify_map(&mut rng(0), &mut data).unwrap();
    assert_eq!(data.metadata.starting_position, Some((4, 4)));
    let last = RoomBasedStartingPosition::new(RoomSelectionMode::Last, PositionSelectionMode::Center);
    last.modify_map(&mut rng(0), &mut data).unwrap();
    assert_eq!(data.metadata.starting_position, Some((12, 12)));
}

#[test]
fn room_objective_inside_the_last_room() {
    for seed in 0..30 {
        let mut data = MapBuildData::new(20, 20);
        data.metadata.rooms = Some(vec![Rect::new(2, 2, 5, 4), Rect::new(10, 10, 4, 3)]);
        let obj = RoomBasedObjectiveSpawner::new(RoomSelectionMode::Last, PositionSelectionMode::Random, Spawnables::TreasureChest);
        obj.modify_map(&mut rng(seed), &mut data).unwrap();
        let entries = data.metadata.spawn_list.to_vec();
        assert_eq!(entries.len(), 1);
        let (p, kind) = entries[0];
        assert_eq!(kind, Spawnables::TreasureChest);
        assert!(p.0 > 10 && p.0 < 14 && p.1 > 10 && p.1 < 13);
    }
}

#[test]
fn random_position_in_a_room_without_interior_fails() {
    let mut data = MapBuildData::new(20, 20);
    data.metadata.rooms = Some(vec![Rect::new(2, 2, 1, 4)]);
    let start = RoomBasedStartingPosition::new(RoomSelectionMode::Random, PositionSelectionMode::Random);
    assert_eq!(start.modify_map(&mut rng(0), &mut data), Err(BuildError::EmptyRoom));
}

#[test]
fn room_spawner_fills_rooms() {
    let mut data = MapBuildData::new(20, 20);
    data.metadata.rooms = Some(vec![Rect::new(2, 2, 5, 4), Rect::new(10, 10, 4, 4)]);
    RoomBasedSpawner::new(1).modify_map(&mut rng(11), &mut data).unwrap();
    assert!(data.metadata.spawn_list.len() <= 2);
    assert_eq!(data.history.len(), 1);
}

#[test]
fn rooms_that_do_not_fit_are_refused() {
    let mut data = MapBuildData::new(10, 40);
    assert_eq!(SimpleMapBuilder::new(5, 4, 9).build_map(&mut rng(0), &mut data), Err(BuildError::RoomsDoNotFit));
    assert_eq!(SimpleMapBuilder::new(5, 6, 4).build_map(&mut rng(0), &mut data), Err(BuildError::RoomsDoNotFit));
    assert_eq!(floor_count(&data.map), 0);
}

#[test]
fn rooms_and_corridors_scenario() {
    for seed in 0..10 {
        let mut data = MapBuildData::new(80, 53);
        let builder = SimpleMapBuilder::new(10, 4, 12);
        builder.build_map(&mut rng(seed), &mut data).unwrap();
        let rooms = data.metadata.rooms.clone().unwrap();
        assert!(!rooms.is_empty());
        assert!(rooms.len() <= 10);
        for (i, a) in rooms.iter().enumerate() {
            for b in rooms.iter().skip(i + 1) {
                assert!(!a.intersect(b));
            }
        }
        let carved = floor_count(&data.map);
        data.metadata.starting_position = Some(rooms[0].center());
        CullUnreachable::new().modify_map(&mut data).unwrap();
        assert_eq!(floor_count(&data.map), carved);
    }
}

#[test]
fn automaton_step_on_a_small_map() {
    let data = data_from(&["#####", "#...#", "#.#.#", "#...#", "#####"]);
    let next = automaton_step_of(&data.map, &vec![0, 5, 6, 7, 8]);
    let expected = data_from(&["#####", "##.##", "#.#.#", "##.##", "#####"]);
    assert_eq!(next, expected.map.tiles);
}

#[test]
fn cellular_builder_is_repeatable() {
    let builder = CellularAutomataBuilder::new(10, 40, vec![0, 5, 6, 7, 8]);
    let mut a = MapBuildData::new(80, 53);
    let mut b = MapBuildData::new(80, 53);
    builder.build_map(&mut rng(42), &mut a);
    builder.build_map(&mut rng(42), &mut b);
    assert_eq!(a.map.tiles, b.map.tiles);
    assert_eq!(a.history.len(), 11);
    for x in 0..80 {
        assert_eq!(a.map.tiles[a.map.xy_to_idx(x, 0).unwrap()], TileType::Wall);
        assert_eq!(a.map.tiles[a.map.xy_to_idx(x, 52).unwrap()], TileType::Wall);
    }
}

#[test]
fn cellular_noise_follows_the_odds() {
    let all_floor = CellularAutomataBuilder::new(0, 100, vec![]);
    let mut data = MapBuildData::new(6, 5);
    all_floor.build_map(&mut rng(1), &mut data);
    assert_eq!(floor_count(&data.map), 4 * 3);
    let all_wall = CellularAutomataBuilder::new(0, 0, vec![]);
    let mut data = MapBuildData::new(6, 5);
    all_wall.build_map(&mut rng(1), &mut data);
    assert_eq!(floor_count(&data.map), 0);
}
