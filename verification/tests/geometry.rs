use tile_physics::body::BodyClass;
use tile_physics::engine::{
    get_bounds_intersection, Bounds, Direction, Event, EventClass, PositionUpdate, Rect,
    UpdateResults,
};

fn bounds(min_x: i32, max_x: i32, min_y: i32, max_y: i32) -> Bounds {
    Bounds { min_x, max_x, min_y, max_y }
}

#[test]
fn intersection_of_overlapping_boxes() {
    let v = get_bounds_intersection(&bounds(0, 10, 0, 10), &bounds(4, 20, 7, 30));
    assert_eq!(v.x, 6);
    assert_eq!(v.y, 3);
}

#[test]
fn intersection_is_symmetric() {
    let a = bounds(-5, 15, 100, 230);
    let b = bounds(10, 40, 90, 110);
    let ab = get_bounds_intersection(&a, &b);
    let ba = get_bounds_intersection(&b, &a);
    assert_eq!((ab.x, ab.y), (ba.x, ba.y));
    assert_eq!((ab.x, ab.y), (5, 10));
}

#[test]
fn touching_boxes_have_no_overlap() {
    let v = get_bounds_intersection(&bounds(0, 10, 0, 10), &bounds(10, 20, 0, 10));
    assert_eq!(v.x, 0);
    assert_eq!(v.y, 10);
}

#[test]
fn boxes_apart_have_negative_overlap() {
    let v = get_bounds_intersection(&bounds(0, 10, 0, 10), &bounds(25, 30, 13, 20));
    assert_eq!(v.x, -15);
    assert_eq!(v.y, -3);
}

#[test]
fn a_box_inside_another_overlaps_with_its_own_size() {
    let v = get_bounds_intersection(&bounds(0, 100, 0, 100), &bounds(20, 30, 40, 90));
    assert_eq!((v.x, v.y), (10, 50));
}

#[test]
fn a_new_record_holds_the_box_and_no_region() {
    let rect = Rect::new(7, BodyClass::Player, 320, 600, 32, 208);
    assert_eq!(rect.id, 7);
    assert_eq!(rect.class, BodyClass::Player);
    assert_eq!(rect.bounds, bounds(288, 352, 392, 600));
    assert_eq!(rect.regions, [0, 0, 0, 0]);
    assert!(!rect.is_updated);
}

#[test]
fn the_default_direction_is_idle() {
    assert_eq!(Direction::default(), Direction::Idle);
}

#[test]
fn event_kinds_have_their_numbers() {
    assert_eq!(EventClass::OutOfWorld.code(), 0);
    assert_eq!(EventClass::Sensor.code(), 1);
    assert_eq!(EventClass::Item.code(), 2);
}

#[test]
fn results_flatten_to_triples_with_a_zero_triple_between() {
    let results = UpdateResults {
        events: vec![
            Event { class: EventClass::OutOfWorld, body_id: 5, trigger_id: 0 },
            Event { class: EventClass::Item, body_id: 3, trigger_id: 9 },
            Event { class: EventClass::Sensor, body_id: 4, trigger_id: 8 },
        ],
        positions_updates: vec![
            PositionUpdate { id: 3, x: 100, y: -20 },
            PositionUpdate { id: 4, x: 7, y: 640 },
        ],
    };
    assert_eq!(
        results.flatten(),
        vec![0, 5, 0, 2, 3, 9, 1, 4, 8, 0, 0, 0, 3, 100, -20, 4, 7, 640]
    );
}

#[test]
fn empty_results_flatten_to_the_zero_triple() {
    let results = UpdateResults { events: vec![], positions_updates: vec![] };
    assert_eq!(results.flatten(), vec![0, 0, 0]);
}
