use roguelike::map::TileType;
use roguelike::map_builder::{generate, MapBuilder, HEIGHT, WIDTH};

#[test]
fn same_seed_same_map() {
    for builder in [MapBuilder::Rooms, MapBuilder::Cellular] {
        let a = generate(builder, 42);
        let b = generate(builder, 42);
        match (a, b) {
            (Ok((map_a, meta_a)), Ok((map_b, meta_b))) => {
                assert_eq!(map_a.tiles, map_b.tiles);
                assert_eq!(meta_a.starting_position, meta_b.starting_position);
                assert_eq!(meta_a.rooms, meta_b.rooms);
                assert_eq!(meta_a.regions, meta_b.regions);
                assert_eq!(meta_a.spawn_list.to_vec(), meta_b.spawn_list.to_vec());
            },
            (Err(a), Err(b)) => assert_eq!(a, b),
            _ => panic!("two runs with one seed disagree"),
        }
    }
}

#[test]
fn rooms_preset_produces_a_full_level() {
    let (map, meta) = generate(MapBuilder::Rooms, 7).unwrap();
    assert_eq!((map.width, map.height), (WIDTH, HEIGHT));
    let (x, y) = meta.starting_position.unwrap();
    assert_eq!(map.tiles[map.xy_to_idx(x, y).unwrap()], TileType::Floor);
    assert!(meta.spawn_list.to_vec().iter().any(|(_, k)| *k == roguelike::map_builder::spawner::Spawnables::TreasureChest));
}

#[test]
fn cellular_preset_produces_a_connected_level() {
    let (map, meta) = generate(MapBuilder::Cellular, 3).unwrap();
    let start = meta.starting_position.unwrap();
    assert_eq!(map.tiles[map.xy_to_idx(start.0, start.1).unwrap()], TileType::Floor);
    assert_eq!(meta.regions.as_ref().unwrap().len(), 10);
    // every floor tile can be reached from the start
    let mut seen = vec![false; map.tiles.len()];
    let mut stack = vec![start];
    seen[map.xy_to_idx(start.0, start.1).unwrap()] = true;
    while let Some(p) = stack.pop() {
        for (q, _) in map.open_neighbours(p) {
            let i = map.xy_to_idx(q.0, q.1).unwrap();
            if !seen[i] {
                seen[i] = true;
                stack.push(q);
            }
        }
    }
    for (i, t) in map.tiles.iter().enumerate() {
        if *t == TileType::Floor {
            assert!(seen[i]);
        }
    }
}
