use std::collections::{HashMap, HashSet};
use tile_physics::body::item::BodyItem;
use tile_physics::body::player::{shifted, BodyPlayer};
use tile_physics::body::{Body, BodyClass};
use tile_physics::clock::counted_micros;
use tile_physics::engine::{
    body_ids, cell_index, update_positions_typed, Bounds, Direction, Event, EventClass, Rect,
};
use tile_physics::grid::can_address;
use tile_physics::world::{detect_contact, position_fits_at, world_fits_in};

fn bounds(min_x: i32, max_x: i32, min_y: i32, max_y: i32) -> Bounds {
    Bounds { min_x, max_x, min_y, max_y }
}

#[test]
fn the_ids_of_a_map_come_each_once() {
    let mut players: HashMap<u32, BodyPlayer> = HashMap::new();
    assert!(body_ids(&players).is_empty());
    for id in [4u32, 9, 2, 77] {
        players.insert(id, BodyPlayer::new(100, 300));
    }
    let mut ids = body_ids(&players);
    ids.sort();
    assert_eq!(ids, vec![2, 4, 9, 77]);
}

#[test]
fn cells_are_counted_downwards_below_zero() {
    assert_eq!(cell_index(0), 0);
    assert_eq!(cell_index(127), 0);
    assert_eq!(cell_index(128), 1);
    assert_eq!(cell_index(-1), -1);
    assert_eq!(cell_index(-128), -1);
    assert_eq!(cell_index(-129), -2);
}

#[test]
fn shifted_stops_at_the_coordinate_limit() {
    assert_eq!(shifted(100, 25), 125);
    assert_eq!(shifted(100, -250), -150);
    assert_eq!(shifted(0x2000_0000, 1), 0x2000_0000);
    assert_eq!(shifted(-0x2000_0000, -1), -0x2000_0000);
    assert_eq!(shifted(5, 1 << 100), 0x2000_0000);
    assert_eq!(shifted(5, -(1 << 100)), -0x2000_0000);
}

#[test]
fn an_item_does_not_move() {
    let mut item = BodyItem::new(500, 300);
    let mut rect = Rect::new(3, BodyClass::Item, 500, 300, 32, 64);
    item.update(1_000_000, &mut rect);
    item.update_rect(&mut rect);
    assert_eq!((item.x, item.y), (500, 300));
    assert_eq!(rect.bounds, bounds(468, 532, 236, 300));
    assert!(!rect.is_updated);
}

#[test]
fn bodies_that_cross_an_edge_are_queued_and_reported() {
    let mut players: HashMap<u32, BodyPlayer> = HashMap::new();
    let mut rects: HashMap<u32, Rect> = HashMap::new();
    let mut leaving = BodyPlayer::new(40, 600);
    leaving.run(Direction::Left);
    let staying = BodyPlayer::new(640, 600);
    let mut sinking = BodyPlayer::new(300, 1270);
    sinking.after_update();
    for (id, player) in [(1u32, leaving), (2, staying), (3, sinking)] {
        rects.insert(id, Rect::new(id, BodyClass::Player, player.x, player.y, 32, 208));
        players.insert(id, player);
    }
    rects.insert(9, Rect::new(9, BodyClass::Item, -500, 300, 32, 64));
    let mut queued: HashSet<u32> = HashSet::new();
    queued.insert(50);
    let mut events: Vec<Event> = Vec::new();
    update_positions_typed(100_000, 1280, 1280, &mut rects, &mut players, &mut queued, &mut events);
    assert_eq!(players[&1].x, 3);
    assert_eq!(players[&2].x, 640);
    assert_eq!(players[&3].y, 1280);
    assert_eq!(rects[&1].bounds, bounds(-29, 35, 392, 600));
    assert!(rects[&1].is_updated);
    assert!(!rects[&2].is_updated);
    assert_eq!(rects[&9].bounds, bounds(-532, -468, 236, 300));
    let mut expected: HashSet<u32> = HashSet::new();
    expected.insert(50);
    expected.insert(1);
    assert_eq!(queued, expected);
    assert_eq!(events, vec![Event { class: EventClass::OutOfWorld, body_id: 1, trigger_id: 0 }]);
    update_positions_typed(100_000, 1280, 1280, &mut rects, &mut players, &mut queued, &mut events);
    assert_eq!(players[&3].y, 1310);
    assert_eq!(events.len(), 3);
    assert!(queued.contains(&3));
}

#[test]
fn a_box_on_the_edge_of_the_world_is_inside() {
    let mut players: HashMap<u32, BodyPlayer> = HashMap::new();
    let mut rects: HashMap<u32, Rect> = HashMap::new();
    let corner = BodyPlayer::new(32, 208);
    let far = BodyPlayer::new(1248, 1280);
    for (id, player) in [(1u32, corner), (2, far)] {
        rects.insert(id, Rect::new(id, BodyClass::Player, player.x, player.y, 32, 208));
        players.insert(id, player);
    }
    let mut queued: HashSet<u32> = HashSet::new();
    let mut events: Vec<Event> = Vec::new();
    update_positions_typed(0, 1280, 1280, &mut rects, &mut players, &mut queued, &mut events);
    assert!(queued.is_empty());
    assert!(events.is_empty());
}

#[test]
fn a_contact_needs_overlap_on_both_axes() {
    let player = Rect::new(1, BodyClass::Player, 320, 640, 32, 208);
    let touching = Rect::new(2, BodyClass::Item, 384, 640, 32, 64);
    let above = Rect::new(3, BodyClass::Item, 320, 432, 32, 64);
    let inside = Rect::new(4, BodyClass::Item, 383, 433, 32, 64);
    assert_eq!(detect_contact(&player, &touching), None);
    assert_eq!(detect_contact(&player, &above), None);
    assert_eq!(
        detect_contact(&player, &inside),
        Some(Event { class: EventClass::Item, body_id: 1, trigger_id: 4 })
    );
}

#[test]
fn contacts_are_classified_in_either_order() {
    let player = Rect::new(1, BodyClass::Player, 320, 640, 32, 208);
    let item = Rect::new(2, BodyClass::Item, 320, 640, 32, 64);
    let sensor = Rect::new(3, BodyClass::Sensor, 320, 640, 32, 64);
    let fixed = Rect::new(4, BodyClass::Fixed, 320, 640, 32, 64);
    let bullet = Rect::new(5, BodyClass::Bullet, 320, 640, 32, 64);
    let pickup = Some(Event { class: EventClass::Item, body_id: 1, trigger_id: 2 });
    assert_eq!(detect_contact(&player, &item), pickup);
    assert_eq!(detect_contact(&item, &player), pickup);
    let sensed = Some(Event { class: EventClass::Sensor, body_id: 1, trigger_id: 3 });
    assert_eq!(detect_contact(&player, &sensor), sensed);
    assert_eq!(detect_contact(&sensor, &player), sensed);
    assert_eq!(detect_contact(&player, &fixed), None);
    assert_eq!(detect_contact(&fixed, &player), None);
    assert_eq!(detect_contact(&bullet, &fixed), None);
    assert_eq!(detect_contact(&fixed, &item), None);
}

#[test]
fn a_box_smaller_than_a_region_can_be_registered() {
    assert!(can_address(&bounds(0, 64, 0, 208)));
    assert!(can_address(&bounds(-1, 63, -300, -92)));
    assert!(can_address(&bounds(0x200_0000, 0x200_0040, 0x3FF_0000, 0x3FF_0040)));
    assert!(can_address(&bounds(7, 7, 9, 9)));
    assert!(can_address(&bounds(0, 1023, 0, 1023)));
    assert!(!can_address(&bounds(0, 1024, 0, 10)));
    assert!(!can_address(&bounds(0, 10, 0, 1024)));
    assert!(!can_address(&bounds(10, 5, 0, 10)));
    assert!(!can_address(&bounds(0, 10, 10, 5)));
    assert!(!can_address(&bounds(i32::MIN, i32::MAX, 0, 0)));
}

#[test]
fn positions_fit_up_to_the_coordinate_limit() {
    assert!(position_fits_at(0, 0));
    assert!(position_fits_at(-0x2000_0000, 0x2000_0000));
    assert!(!position_fits_at(0x2000_0001, 0));
    assert!(!position_fits_at(0, -0x2000_0001));
    assert!(!position_fits_at(i32::MIN, i32::MAX));
}

#[test]
fn worlds_fit_up_to_their_largest_size() {
    assert!(world_fits_in(0, 0));
    assert!(world_fits_in(10, 10));
    assert!(world_fits_in(0x7_FFF0, 4096));
    assert!(world_fits_in(4096, 0x7_FFF0));
    assert!(!world_fits_in(0x7_FFF0, 4097));
    assert!(!world_fits_in(0x7_FFF1, 1));
    assert!(!world_fits_in(1, 0x7_FFF1));
    assert!(!world_fits_in(-1, 5));
    assert!(!world_fits_in(5, -1));
}

#[test]
fn a_span_too_long_to_count_is_the_longest_tick() {
    assert_eq!(counted_micros(0), 0);
    assert_eq!(counted_micros(16_667), 16_667);
    assert_eq!(counted_micros(u64::MAX as u128), u64::MAX);
    assert_eq!(counted_micros(u64::MAX as u128 + 1), u64::MAX);
    assert_eq!(counted_micros(u128::MAX), u64::MAX);
}
