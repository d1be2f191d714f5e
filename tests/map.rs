use roguelike::map::{GameMap, OutsideMapError, TileType};

#[test]
fn test_xy_to_idx() {
    let map = GameMap::new(3, 4);

    assert_eq!(map.xy_to_idx(0, 0), Ok(0));
    assert_eq!(map.xy_to_idx(0, 3), Ok(9));
    assert_eq!(map.xy_to_idx(2, 0), Ok(2));
    assert_eq!(map.xy_to_idx(2, 3), Ok(11));
}

#[test]
fn test_xy_to_idx_out_of_bounds() {
    let map = GameMap::new(3, 4);

    assert_eq!(map.xy_to_idx(3, 0), Err(OutsideMapError));
    assert_eq!(map.xy_to_idx(0, 4), Err(OutsideMapError));
    assert_eq!(map.xy_to_idx(13, 23), Err(OutsideMapError));
}

#[test]
fn test_idx_to_xy() {
    let map = GameMap::new(3, 4);

    assert_eq!(map.idx_to_xy(0), Ok((0, 0)));
    assert_eq!(map.idx_to_xy(2), Ok((2, 0)));
    assert_eq!(map.idx_to_xy(11), Ok((2, 3)));
}

#[test]
fn test_idx_to_xy_out_of_bounds() {
    let map = GameMap::new(3, 4);

    assert_eq!(map.idx_to_xy(12), Err(OutsideMapError));
    assert_eq!(map.idx_to_xy(200), Err(OutsideMapError));
    assert_eq!(map.idx_to_xy(usize::MAX), Err(OutsideMapError));
}

#[test]
fn grid_scenario_three_by_four() {
    let map = GameMap::new(3, 4);
    assert_eq!(map.xy_to_idx(2, 3), Ok(11));
    assert_eq!(map.idx_to_xy(11), Ok((2, 3)));
    assert_eq!(map.xy_to_idx(3, 0), Err(OutsideMapError));
}

#[test]
fn round_trip_over_every_tile() {
    let map = GameMap::new(7, 5);
    for y in 0..5 {
        for x in 0..7 {
            let idx = map.xy_to_idx(x, y).unwrap();
            assert_eq!(map.idx_to_xy(idx), Ok((x, y)));
        }
    }
    for idx in 0..map.length() {
        let (x, y) = map.idx_to_xy(idx).unwrap();
        assert_eq!(map.xy_to_idx(x, y), Ok(idx));
    }
}

#[test]
fn new_map_is_all_wall() {
    let map = GameMap::new(4, 2);
    assert_eq!(map.length(), 8);
    assert_eq!(map.tiles.len(), 8);
    assert!(map.tiles.iter().all(|t| *t == TileType::Wall));
}

fn map_from(rows: &[&str]) -> GameMap {
    let mut map = GameMap::new(rows[0].len() as u32, rows.len() as u32);
    for (y, row) in rows.iter().enumerate() {
        for (x, c) in row.chars().enumerate() {
            if c == '.' {
                let idx = map.xy_to_idx(x as u32, y as u32).unwrap();
                map.tiles[idx] = TileType::Floor;
            }
        }
    }
    map
}

#[test]
fn find_floor_searches_forward_then_backward() {
    let map = map_from(&["#.##", "###.", "####"]);
    assert_eq!(map.find_floor_near(0), Some(1));
    assert_eq!(map.find_floor_near(2), Some(7));
    assert_eq!(map.find_floor_near(7), Some(7));
    assert_eq!(map.find_floor_near(8), Some(7));
    let walls = GameMap::new(3, 3);
    assert_eq!(walls.find_floor_near(4), None);
}

#[test]
fn open_neighbours_lists_floor_next_to_a_tile() {
    let map = map_from(&["#.#", "..#", "#.#"]);
    let mut around: Vec<(u32, u32)> = map.open_neighbours((1, 1)).into_iter().map(|(p, c)| {
        assert_eq!(c, 1);
        p
    }).collect();
    around.sort();
    assert_eq!(around, vec![(0, 1), (1, 0), (1, 2)]);
    let corner: Vec<((u32, u32), u64)> = map.open_neighbours((0, 0));
    assert_eq!(corner.len(), 2);
}

#[test]
fn carve_box_makes_floor_inside_the_map_only() {
    let mut map = GameMap::new(4, 3);
    map.carve_box(2, 10, 1, 2);
    assert_eq!(map.tiles[map.xy_to_idx(2, 1).unwrap()], TileType::Floor);
    assert_eq!(map.tiles[map.xy_to_idx(3, 1).unwrap()], TileType::Floor);
    assert_eq!(map.tiles.iter().filter(|t| **t == TileType::Floor).count(), 2);
}
