use rand::Rng;
use rand::SeedableRng;
use roguelike::map_builder::rect::Rect;
use roguelike::map_builder::spawner::{fill_region, fill_room, fill_slots, spawn_table, try_place, SpawnList, Spawnables};

#[test]
fn spawn_list_insert_overwrites() {
    let mut list = SpawnList::new();
    list.insert((1, 2), Spawnables::Turtle);
    list.insert((3, 4), Spawnables::APCrystal);
    list.insert((1, 2), Spawnables::TreasureChest);
    assert_eq!(list.len(), 2);
    assert_eq!(list.get((1, 2)), Some(Spawnables::TreasureChest));
    assert_eq!(list.get((3, 4)), Some(Spawnables::APCrystal));
    assert_eq!(list.get((0, 0)), None);
    assert!(list.contains_key((3, 4)));
    let entries = list.to_vec();
    assert_eq!(entries.len(), 2);
}

#[test]
fn spawn_list_extend_prefers_the_new_entries() {
    let mut a = SpawnList::new();
    a.insert((0, 0), Spawnables::Turtle);
    a.insert((1, 0), Spawnables::Turtle);
    let mut b = SpawnList::new();
    b.insert((1, 0), Spawnables::APCrystal);
    b.insert((2, 0), Spawnables::TreasureChest);
    a.extend(b);
    assert_eq!(a.len(), 3);
    assert_eq!(a.get((0, 0)), Some(Spawnables::Turtle));
    assert_eq!(a.get((1, 0)), Some(Spawnables::APCrystal));
    assert_eq!(a.get((2, 0)), Some(Spawnables::TreasureChest));
    let copy = a.duplicate();
    assert_eq!(copy.to_vec(), a.to_vec());
}

#[test]
fn try_place_refuses_an_occupied_position() {
    let mut list = SpawnList::new();
    assert!(try_place(&mut list, (5, 5), Spawnables::Turtle));
    assert!(!try_place(&mut list, (5, 5), Spawnables::APCrystal));
    assert_eq!(list.get((5, 5)), Some(Spawnables::Turtle));
}

#[test]
fn spawn_table_weights() {
    let t = spawn_table();
    assert_eq!(t.pick_entry(0), Some(Spawnables::Turtle));
    assert_eq!(t.pick_entry(9), Some(Spawnables::Turtle));
    assert_eq!(t.pick_entry(10), Some(Spawnables::APCrystal));
    assert_eq!(t.pick_entry(209), Some(Spawnables::APCrystal));
}

#[test]
fn region_spawner_respects_its_limit_on_five_tiles() {
    let region = vec![(1, 1), (2, 1), (3, 1), (1, 2), (2, 2)];
    let mut max_seen = 0;
    for seed in 0..200 {
        let mut rng = rand::rngs::StdRng::seed_from_u64(seed);
        let list = fill_region(&mut rng, &region, 3);
        let entries = list.to_vec();
        assert!(entries.len() <= 3);
        max_seen = max_seen.max(entries.len());
        for (i, (p, kind)) in entries.iter().enumerate() {
            assert!(region.contains(p));
            assert!(matches!(kind, Spawnables::Turtle | Spawnables::APCrystal));
            for (q, _) in entries.iter().skip(i + 1) {
                assert_ne!(p, q);
            }
        }
    }
    assert!(max_seen > 0);
}

#[test]
fn empty_region_gets_no_spawns() {
    let mut rng = rand::rngs::StdRng::seed_from_u64(9);
    let list = fill_region(&mut rng, &[], 5);
    assert_eq!(list.len(), 0);
}

#[test]
fn room_spawns_stay_inside_the_border() {
    let room = Rect::new(10, 20, 4, 3);
    for seed in 0..50 {
        let mut rng = rand::rngs::StdRng::seed_from_u64(seed);
        let list = fill_room(&mut rng, &room, 6);
        assert!(list.len() <= 6);
        for (p, _) in list.to_vec() {
            assert!(p.0 > 10 && p.0 < 14 && p.1 > 20 && p.1 < 23);
        }
    }
}

#[test]
fn room_without_interior_gets_no_spawns() {
    let room = Rect::new(3, 3, 1, 5);
    let mut rng = rand::rngs::StdRng::seed_from_u64(4);
    assert_eq!(fill_room(&mut rng, &room, 4).len(), 0);
}

#[test]
fn first_slot_always_lands() {
    let region = vec![(4, 4)];
    for seed in 0..20 {
        let mut rng = rand::rngs::StdRng::seed_from_u64(seed);
        let list = fill_slots(&mut rng, &region, 3);
        assert_eq!(list.len(), 1);
        assert!(list.contains_key((4, 4)));
    }
    let mut rng = rand::rngs::StdRng::seed_from_u64(0);
    assert_eq!(fill_slots(&mut rng, &region, 0).len(), 0);
}

#[test]
fn empty_region_draws_nothing() {
    let mut a = rand::rngs::StdRng::seed_from_u64(17);
    let mut b = rand::rngs::StdRng::seed_from_u64(17);
    fill_region(&mut a, &[], 4);
    assert_eq!(a.gen::<u64>(), b.gen::<u64>());
}
