use tile_physics::body::BodyClass;
use tile_physics::engine::{Bounds, Event, EventClass, PositionUpdate};
use tile_physics::{Direction, World};

fn world_with_floor() -> World {
    let mut world = World::new(10, 10);
    for x in 0..10 {
        assert_eq!(world.block_create(x, 5), (5 * 10 + x + 1) as u32);
    }
    world
}

fn standing_player(world: &mut World, x: i32) -> u32 {
    let id = world.player_create(x, 600);
    world.advance(0);
    world.advance(200_000);
    world.advance(100_000);
    let player = world.player(id).unwrap();
    assert!(player.is_on_ground);
    assert_eq!((player.x, player.y), (x, 640));
    id
}

#[test]
fn a_new_world_is_empty() {
    let mut world = World::new(10, 10);
    assert_eq!(world.cells().width(), 10);
    assert_eq!(world.cells().height(), 10);
    assert!(world.player(1).is_none());
    assert!(world.rect(1).is_none());
    let results = world.advance(1_000);
    assert!(results.events.is_empty());
    assert!(results.positions_updates.is_empty());
}

#[test]
fn blocks_get_the_number_of_their_cell() {
    let mut world = World::new(10, 8);
    assert_eq!(world.block_create(0, 0), 1);
    assert_eq!(world.block_create(9, 0), 10);
    assert_eq!(world.block_create(3, 2), 24);
    assert_eq!(world.block_create(9, 7), 80);
    assert!(world.cells().is_block(3, 2));
    assert!(world.cells().is_busy(3, 2));
    assert!(!world.cells().is_block(2, 3));
}

#[test]
fn no_block_is_created_outside_the_cells() {
    let mut world = World::new(10, 8);
    assert_eq!(world.block_create(10, 0), 0);
    assert_eq!(world.block_create(0, 8), 0);
    assert_eq!(world.block_create(-1, 3), 0);
    assert_eq!(world.block_create(3, -1), 0);
    for y in 0..8 {
        for x in 0..10 {
            assert!(!world.cells().is_block(x, y));
        }
    }
}

#[test]
fn removing_a_block_frees_its_cell() {
    let mut world = World::new(10, 8);
    let id = world.block_create(3, 2);
    let other = world.block_create(4, 2);
    world.block_remove(id);
    assert!(!world.cells().is_block(3, 2));
    assert!(!world.cells().is_busy(3, 2));
    assert!(world.cells().is_block(4, 2));
    world.block_remove(other);
    assert!(!world.cells().is_block(4, 2));
}

#[test]
fn removing_a_block_that_no_cell_has_is_ignored() {
    let mut world = World::new(10, 8);
    world.block_create(0, 0);
    world.block_create(9, 7);
    world.block_remove(0);
    world.block_remove(81);
    world.block_remove(u32::MAX);
    assert!(world.cells().is_block(0, 0));
    assert!(world.cells().is_block(9, 7));
}

#[test]
fn bodies_get_the_ids_of_the_counter() {
    let mut world = World::new(10, 10);
    let player = world.player_create(320, 600);
    let item = world.item_create(500, 300);
    let second = world.player_create(700, 600);
    assert_eq!((player, item, second), (1, 2, 3));
    assert_eq!(world.rect(player).unwrap().class, BodyClass::Player);
    assert_eq!(
        world.rect(player).unwrap().bounds,
        Bounds { min_x: 288, max_x: 352, min_y: 392, max_y: 600 }
    );
    assert_eq!(world.rect(item).unwrap().class, BodyClass::Item);
    assert_eq!(
        world.rect(item).unwrap().bounds,
        Bounds { min_x: 468, max_x: 532, min_y: 236, max_y: 300 }
    );
    assert_eq!(world.rect(item).unwrap().regions, [1, 0, 0, 0]);
    assert_eq!((world.item(item).unwrap().x, world.item(item).unwrap().y), (500, 300));
    assert!(world.item(player).is_none());
    assert!(world.player(item).is_none());
}

#[test]
fn intents_for_unknown_players_are_ignored() {
    let mut world = World::new(10, 10);
    let item = world.item_create(500, 300);
    world.player_run(77, Direction::Left);
    world.player_jump(77);
    world.player_run(item, Direction::Left);
    world.player_jump(item);
    world.remove(77);
    let results = world.advance(10_000);
    assert!(results.events.is_empty());
    assert!(results.positions_updates.is_empty());
    assert!(world.item(item).is_some());
}

#[test]
fn removal_waits_for_the_next_tick() {
    let mut world = World::new(10, 10);
    let player = world.player_create(320, 600);
    let item = world.item_create(900, 300);
    world.remove(player);
    world.remove(item);
    assert!(world.player(player).is_some());
    assert!(world.rect(item).is_some());
    let results = world.advance(100_000);
    assert!(results.events.is_empty());
    assert!(results.positions_updates.is_empty());
    assert!(world.player(player).is_none());
    assert!(world.rect(player).is_none());
    assert!(world.item(item).is_none());
    assert!(world.rect(item).is_none());
}

#[test]
fn a_player_in_the_air_begins_to_fall() {
    let mut world = world_with_floor();
    let id = world.player_create(320, 600);
    let first = world.advance(0);
    assert!(first.events.is_empty());
    assert!(first.positions_updates.is_empty());
    assert!(world.player(id).unwrap().is_fall);
    let second = world.advance(100_000);
    assert_eq!(second.positions_updates, vec![PositionUpdate { id, x: 320, y: 610 }]);
    assert_eq!(world.rect(id).unwrap().bounds.max_y, 610);
}

#[test]
fn a_falling_player_lands_on_the_floor() {
    let mut world = world_with_floor();
    let id = world.player_create(320, 600);
    world.advance(0);
    world.advance(200_000);
    assert_eq!(world.player(id).unwrap().y, 640);
    assert!(world.player(id).unwrap().is_fall);
    let landing = world.advance(100_000);
    let player = world.player(id).unwrap();
    assert!(player.is_on_ground && !player.is_fall && !player.is_jump);
    assert_eq!((player.x, player.y), (320, 640));
    assert_eq!(player.force_x, 0);
    assert!(landing.events.is_empty());
    assert!(landing.positions_updates.is_empty());
}

#[test]
fn a_landing_player_runs_on_at_full_speed() {
    let mut world = world_with_floor();
    let id = world.player_create(320, 600);
    world.player_run(id, Direction::Right);
    assert_eq!(world.player(id).unwrap().force_x, 375);
    world.advance(0);
    assert_eq!(world.player(id).unwrap().force_x, 750);
    let second = world.advance(100_000);
    assert_eq!(second.positions_updates, vec![PositionUpdate { id, x: 395, y: 610 }]);
    let third = world.advance(200_000);
    assert_eq!(third.positions_updates, vec![PositionUpdate { id, x: 545, y: 690 }]);
    assert!(world.player(id).unwrap().is_fall);
    let fourth = world.advance(10_000);
    assert_eq!(fourth.positions_updates, vec![PositionUpdate { id, x: 552, y: 640 }]);
    let landed = world.player(id).unwrap();
    assert!(landed.is_on_ground && !landed.is_fall);
    assert_eq!(landed.force_x, 750);
    let fifth = world.advance(100_000);
    assert_eq!(fifth.positions_updates, vec![PositionUpdate { id, x: 627, y: 640 }]);
    assert!(world.player(id).unwrap().is_on_ground);
}

#[test]
fn an_idle_player_on_the_ground_does_not_move() {
    let mut world = world_with_floor();
    let id = standing_player(&mut world, 320);
    let before = world.player(id).unwrap();
    for elapsed in [0u64, 16_000, 1_000_000, 5] {
        let results = world.advance(elapsed);
        assert!(results.events.is_empty());
        assert!(results.positions_updates.is_empty());
        let player = world.player(id).unwrap();
        assert_eq!((player.x, player.y), (before.x, before.y));
        assert!(player.is_on_ground);
        assert_eq!(world.rect(id).unwrap().bounds.max_y, 640);
    }
}

#[test]
fn a_jump_from_the_floor_returns_to_the_floor() {
    let mut world = world_with_floor();
    let id = standing_player(&mut world, 320);
    world.player_jump(id);
    assert!(world.player(id).unwrap().is_jump);
    let rising = world.advance(200_000);
    assert_eq!(rising.positions_updates, vec![PositionUpdate { id, x: 320, y: 520 }]);
    let apex = world.advance(200_000);
    assert_eq!(apex.positions_updates, vec![PositionUpdate { id, x: 320, y: 480 }]);
    let sinking = world.advance(200_000);
    assert_eq!(sinking.positions_updates, vec![PositionUpdate { id, x: 320, y: 520 }]);
    let level = world.advance(200_000);
    assert_eq!(level.positions_updates, vec![PositionUpdate { id, x: 320, y: 640 }]);
    assert!(world.player(id).unwrap().is_jump);
    let landing = world.advance(50_000);
    assert!(landing.positions_updates.is_empty());
    let player = world.player(id).unwrap();
    assert!(player.is_on_ground && !player.is_jump);
    assert_eq!(player.y, 640);
}

#[test]
fn a_player_that_leaves_the_world_is_reported_once_and_removed() {
    let mut world = world_with_floor();
    let id = world.player_create(40, 600);
    let other = world.player_create(700, 600);
    world.player_run(id, Direction::Left);
    let first = world.advance(0);
    assert!(first.events.is_empty());
    let second = world.advance(100_000);
    assert_eq!(
        second.events,
        vec![Event { class: EventClass::OutOfWorld, body_id: id, trigger_id: 0 }]
    );
    assert_eq!(second.positions_updates, vec![PositionUpdate { id: other, x: 700, y: 610 }]);
    assert!(world.player(id).is_none());
    assert!(world.rect(id).is_none());
    assert!(world.player(other).is_some());
    let third = world.advance(100_000);
    assert!(third.events.is_empty());
    assert_eq!(third.positions_updates.len(), 1);
}

#[test]
fn a_player_that_falls_below_the_world_is_removed() {
    let mut world = World::new(10, 10);
    let id = world.player_create(320, 1200);
    world.advance(0);
    let results = world.advance(300_000);
    assert_eq!(
        results.events,
        vec![Event { class: EventClass::OutOfWorld, body_id: id, trigger_id: 0 }]
    );
    assert!(results.positions_updates.is_empty());
    assert!(world.player(id).is_none());
}

#[test]
fn a_player_created_beyond_the_world_is_removed_by_the_first_tick() {
    let mut world = World::new(10, 10);
    let id = world.player_create(5000, 600);
    let results = world.advance(0);
    assert_eq!(
        results.events,
        vec![Event { class: EventClass::OutOfWorld, body_id: id, trigger_id: 0 }]
    );
    assert!(world.player(id).is_none());
}

#[test]
fn a_player_created_across_the_edge_is_removed_by_the_first_tick() {
    let mut world = world_with_floor();
    let id = world.player_create(10, 600);
    assert_eq!(world.rect(id).unwrap().bounds.min_x, -22);
    assert_eq!(world.rect(id).unwrap().regions, [0, 0, 0, 0]);
    let results = world.advance(0);
    assert_eq!(
        results.events,
        vec![Event { class: EventClass::OutOfWorld, body_id: id, trigger_id: 0 }]
    );
    assert!(world.player(id).is_none());
    assert!(world.rect(id).is_none());
}

#[test]
fn a_player_that_runs_into_the_world_is_kept() {
    let mut world = world_with_floor();
    let id = world.player_create(10, 600);
    let item = world.item_create(60, 600);
    world.player_run(id, Direction::Right);
    let results = world.advance(100_000);
    assert_eq!(
        results.events,
        vec![Event { class: EventClass::Item, body_id: id, trigger_id: item }]
    );
    assert_eq!(results.positions_updates, vec![PositionUpdate { id, x: 47, y: 600 }]);
    assert_eq!(world.rect(id).unwrap().regions, [1, 0, 0, 0]);
}

#[test]
fn a_player_is_reported_with_an_item_across_the_upper_edge() {
    let mut world = World::new(8, 8);
    let player = world.player_create(300, 208);
    let item = world.item_create(300, 30);
    assert_eq!(world.rect(item).unwrap().regions, [-65535, 1, 0, 0]);
    let results = world.update();
    assert_eq!(
        results.events,
        vec![Event { class: EventClass::Item, body_id: player, trigger_id: item }]
    );
}

#[test]
fn a_player_is_reported_with_an_item_across_the_left_edge() {
    let mut world = World::new(10, 12);
    for x in 0..10 {
        world.block_create(x, 10);
    }
    let player = world.player_create(40, 1240);
    world.advance(0);
    world.advance(200_000);
    world.advance(100_000);
    assert!(world.player(player).unwrap().is_on_ground);
    assert_eq!(world.player(player).unwrap().y, 1280);
    let item = world.item_create(10, 1280);
    assert_eq!(world.rect(item).unwrap().regions, [65536, 65537, 0, 0]);
    let results = world.advance(10_000);
    assert_eq!(
        results.events,
        vec![Event { class: EventClass::Item, body_id: player, trigger_id: item }]
    );
}

#[test]
fn a_world_beyond_half_the_space_reports_its_contacts() {
    let mut world = World::new(0x7_FFF0, 2);
    let x = 65532 * 1024 + 100;
    let player = world.player_create(x, 230);
    assert_eq!(world.rect(player).unwrap().regions, [65533, 0, 0, 0]);
    let item = world.item_create(x + 20, 100);
    let results = world.advance(0);
    assert_eq!(
        results.events,
        vec![Event { class: EventClass::Item, body_id: player, trigger_id: item }]
    );
}

#[test]
fn an_item_in_the_region_without_an_id_is_kept_but_never_touched() {
    let mut world = world_with_floor();
    let item = world.item_create(-100, 640);
    let player = standing_player(&mut world, 320);
    let results = world.advance(10_000);
    assert!(results.events.is_empty());
    assert!(world.item(item).is_some());
    assert!(world.player(player).is_some());
    assert_eq!(world.rect(item).unwrap().regions, [0, 0, 0, 0]);
}

#[test]
fn a_player_that_touches_an_item_is_reported_with_the_item() {
    let mut world = world_with_floor();
    let player = standing_player(&mut world, 320);
    let far = world.item_create(900, 640);
    let near = world.item_create(350, 640);
    let results = world.advance(10_000);
    assert_eq!(
        results.events,
        vec![Event { class: EventClass::Item, body_id: player, trigger_id: near }]
    );
    let again = world.advance(10_000);
    assert_eq!(again.events.len(), 1);
    world.remove(near);
    let after = world.advance(10_000);
    assert!(after.events.is_empty());
    assert!(world.item(far).is_some());
    assert!(world.item(near).is_none());
}

#[test]
fn a_player_that_only_touches_the_edge_of_an_item_is_not_reported() {
    let mut world = world_with_floor();
    standing_player(&mut world, 320);
    world.item_create(416, 640);
    let results = world.advance(10_000);
    assert!(results.events.is_empty());
}

#[test]
fn a_running_player_picks_up_an_item_across_regions() {
    let mut world = World::new(20, 10);
    for x in 0..20 {
        world.block_create(x, 5);
    }
    let player = standing_player(&mut world, 900);
    let item = world.item_create(1060, 640);
    world.player_run(player, Direction::Right);
    let mut seen = false;
    for _ in 0..10 {
        let results = world.advance(20_000);
        for event in results.events.iter() {
            assert_eq!(*event, Event { class: EventClass::Item, body_id: player, trigger_id: item });
            seen = true;
        }
        let rect = world.rect(player).unwrap();
        let overlaps = rect.bounds.max_x > 1028 && rect.bounds.min_x < 1092;
        assert_eq!(!results.events.is_empty() || !overlaps, true);
    }
    assert!(seen);
}

#[test]
fn the_cells_around_a_player_that_can_be_built_on() {
    let mut world = world_with_floor();
    assert_eq!(world.block_create(1, 4), 42);
    let id = standing_player(&mut world, 320);
    assert_eq!(world.get_possible_build_blocks(id), vec![1, 6, 2, 6, 3, 6, 1, 3, 3, 4]);
}

#[test]
fn no_cells_for_an_unknown_player() {
    let world = world_with_floor();
    assert!(world.get_possible_build_blocks(9).is_empty());
}

#[test]
fn the_clock_drives_update() {
    let mut world = world_with_floor();
    let id = world.player_create(320, 600);
    let first = world.update();
    assert!(first.events.is_empty());
    assert!(first.positions_updates.is_empty());
    assert!(world.player(id).unwrap().is_fall);
    let second = world.update();
    assert!(second.events.is_empty());
    assert!(second.positions_updates.len() <= 1);
    assert!(world.player(id).unwrap().y >= 600);
}
