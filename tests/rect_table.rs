use rand::SeedableRng;
use roguelike::map_builder::random_table::RandomTable;
use roguelike::map_builder::rect::Rect;

#[test]
fn rect_corners_and_sizes() {
    let r = Rect::new(2, 3, 5, 4);
    assert_eq!((r.x1, r.y1, r.x2, r.y2), (2, 3, 7, 7));
    assert_eq!(r.width(), 5);
    assert_eq!(r.height(), 4);
    assert_eq!(r.center(), (4, 5));
}

#[test]
fn rect_center_rounds_down_without_overflow() {
    let r = Rect::new(u32::MAX - 3, 0, 3, 1);
    assert_eq!(r.center(), (u32::MAX - 2, 0));
}

#[test]
fn rects_touching_at_an_edge_intersect() {
    let a = Rect::new(0, 0, 4, 4);
    let b = Rect::new(4, 0, 3, 3);
    let c = Rect::new(5, 5, 2, 2);
    assert!(a.intersect(&b));
    assert!(b.intersect(&a));
    assert!(!a.intersect(&c));
    assert!(b.intersect(&c) == false);
}

#[test]
fn table_pick_subtracts_weights_in_order() {
    let t = RandomTable::new().add('a', 10).add('b', 200);
    assert_eq!(t.pick_entry(0), Some('a'));
    assert_eq!(t.pick_entry(9), Some('a'));
    assert_eq!(t.pick_entry(10), Some('b'));
    assert_eq!(t.pick_entry(209), Some('b'));
    assert_eq!(t.pick_entry(210), None);
}

#[test]
fn empty_table_rolls_nothing() {
    let t: RandomTable<u8> = RandomTable::new();
    let mut rng = rand::rngs::StdRng::seed_from_u64(1);
    assert_eq!(t.roll(&mut rng), None);
}

#[test]
fn table_roll_returns_an_entry() {
    let t = RandomTable::new().add(1u8, 1).add(2u8, 1);
    let mut rng = rand::rngs::StdRng::seed_from_u64(3);
    let mut seen = [false; 3];
    for _ in 0..200 {
        let v = t.roll(&mut rng).unwrap();
        seen[v as usize] = true;
    }
    assert!(seen[1] && seen[2]);
}
