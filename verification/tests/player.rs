use tile_physics::body::player::BodyPlayer;
use tile_physics::body::{Body, BodyClass};
use tile_physics::engine::{Bounds, Direction, Rect, Vector};

fn grounded(x: i32, y: i32) -> BodyPlayer {
    let mut player = BodyPlayer::new(x, y);
    player.is_on_ground = true;
    player
}

fn record(player: &BodyPlayer) -> Rect {
    Rect::new(1, BodyClass::Player, player.x, player.y, 32, 208)
}

#[test]
fn a_new_player_rests_in_the_air() {
    let player = BodyPlayer::new(320, 600);
    assert_eq!((player.x, player.y), (320, 600));
    assert_eq!((player.prev_x, player.prev_y), (320, 600));
    assert_eq!(player.force_x, 0);
    assert_eq!(player.last_ground_y, 600);
    assert!(!player.is_on_ground && !player.is_jump && !player.is_fall);
    assert_eq!(player.move_state, Direction::Idle);
}

#[test]
fn running_on_the_ground_sets_full_speed() {
    let mut player = grounded(320, 600);
    player.run(Direction::Right);
    assert_eq!(player.force_x, 750);
    player.run(Direction::Left);
    assert_eq!(player.force_x, -750);
    player.run(Direction::Idle);
    assert_eq!(player.force_x, 0);
}

#[test]
fn the_first_intent_in_the_air_sets_half_speed_once() {
    let mut player = BodyPlayer::new(320, 600);
    player.run(Direction::Left);
    assert_eq!(player.force_x, -375);
    assert!(player.jump_x_setted && player.jump_x_decreased);
    player.run(Direction::Right);
    assert_eq!(player.force_x, -375);
    assert_eq!(player.move_state, Direction::Right);
}

#[test]
fn the_same_intent_changes_nothing() {
    let mut player = grounded(320, 600);
    player.run(Direction::Right);
    let before = player;
    player.run(Direction::Right);
    assert_eq!(player.force_x, before.force_x);
    assert_eq!(player.move_state, before.move_state);
}

#[test]
fn only_a_grounded_player_jumps() {
    let mut airborne = BodyPlayer::new(320, 600);
    airborne.jump();
    assert!(!airborne.is_jump);
    let mut player = grounded(320, 600);
    player.jump();
    assert!(player.is_jump && !player.is_on_ground && !player.is_fall);
    assert_eq!(player.jump_timer, 0);
    assert_eq!(player.last_ground_y, 600);
    assert!(!player.jump_x_setted);
}

#[test]
fn a_jump_with_intent_latches_the_intent() {
    let mut player = grounded(320, 600);
    player.run(Direction::Right);
    player.jump();
    assert!(player.jump_x_setted);
    player.run(Direction::Left);
    assert_eq!(player.force_x, 750);
    assert_eq!(player.move_state, Direction::Left);
}

#[test]
fn a_jump_without_intent_allows_one_change_in_the_air() {
    let mut player = grounded(320, 600);
    player.jump();
    player.run(Direction::Left);
    assert_eq!(player.force_x, -375);
    player.run(Direction::Right);
    assert_eq!(player.force_x, -375);
}

#[test]
fn the_jump_follows_the_parabola() {
    let mut player = grounded(1000, 1000);
    player.jump();
    let mut rect = record(&player);
    player.update(200_000, &mut rect);
    assert_eq!(player.y, 880);
    assert_eq!(player.move_dir_y, -1);
    player.update(200_000, &mut rect);
    assert_eq!(player.jump_timer, 400_000);
    assert_eq!(player.y, 840);
    assert_eq!(player.move_dir_y, -1);
    player.update(200_000, &mut rect);
    assert_eq!(player.y, 880);
    assert_eq!(player.move_dir_y, 1);
    player.update(200_000, &mut rect);
    assert_eq!(player.y, 1000);
    player.update(100_000, &mut rect);
    assert_eq!(player.y, 1090);
    assert_eq!(rect.bounds, Bounds { min_x: 968, max_x: 1032, min_y: 882, max_y: 1090 });
    assert!(rect.is_updated);
}

#[test]
fn the_jump_drops_fractions_of_a_unit() {
    let mut player = grounded(1000, 1000);
    player.jump();
    let mut rect = record(&player);
    player.update(450_000, &mut rect);
    assert_eq!(player.y, 842);
    let mut early = grounded(1000, 1000);
    early.jump();
    early.update(350_000, &mut rect);
    assert_eq!(early.y, 842);
    let mut start = grounded(1000, 1000);
    start.jump();
    start.update(1, &mut rect);
    assert_eq!(start.y, 999);
}

#[test]
fn a_fall_is_a_quadratic_drop() {
    let mut player = BodyPlayer::new(500, 300);
    player.after_update();
    assert!(player.is_fall);
    assert_eq!(player.last_ground_y, 300);
    let mut rect = record(&player);
    player.update(100_000, &mut rect);
    assert_eq!(player.y, 310);
    player.update(150_000, &mut rect);
    assert_eq!(player.fall_timer, 250_000);
    assert_eq!(player.y, 362);
    assert_eq!(player.move_dir_y, 1);
    player.update(750_000, &mut rect);
    assert_eq!(player.y, 1300);
}

#[test]
fn running_covers_whole_units_only() {
    let mut right = grounded(1000, 1000);
    right.run(Direction::Right);
    let mut rect = record(&right);
    right.update(16_667, &mut rect);
    assert_eq!(right.x, 1012);
    assert_eq!(right.y, 1001);
    let mut left = grounded(1000, 1000);
    left.run(Direction::Left);
    left.update(16_667, &mut rect);
    assert_eq!(left.x, 988);
    left.update(1_000, &mut rect);
    assert_eq!(left.x, 988);
    left.update(1_000_000, &mut rect);
    assert_eq!(left.x, 238);
}

#[test]
fn a_player_at_rest_in_the_air_leaves_its_record_alone() {
    let mut player = BodyPlayer::new(320, 600);
    let mut rect = record(&player);
    player.update(500_000, &mut rect);
    assert_eq!((player.x, player.y), (320, 600));
    assert!(!rect.is_updated);
    assert_eq!(rect.bounds, Bounds { min_x: 288, max_x: 352, min_y: 392, max_y: 600 });
}

#[test]
fn a_grounded_player_is_nudged_down() {
    let mut player = grounded(320, 600);
    let mut rect = record(&player);
    player.update(0, &mut rect);
    assert_eq!((player.x, player.y), (320, 601));
    assert!(rect.is_updated);
    assert_eq!(rect.bounds.max_y, 601);
}

#[test]
fn positions_stop_at_the_coordinate_limit() {
    let mut player = BodyPlayer::new(0, 0);
    player.after_update();
    let mut rect = record(&player);
    player.update(u64::MAX, &mut rect);
    assert_eq!(player.y, 0x2000_0000);
    assert_eq!(player.fall_timer, u64::MAX);
    player.update(5, &mut rect);
    assert_eq!(player.fall_timer, u64::MAX);
    assert_eq!(player.y, 0x2000_0000);
}

#[test]
fn a_push_up_lands_the_player() {
    let mut player = BodyPlayer::new(320, 600);
    player.run(Direction::Right);
    player.after_update();
    assert!(player.is_fall);
    assert_eq!(player.force_x, 750);
    player.update_correction(&Vector { x: 0, y: -50 });
    assert!(player.is_on_ground && !player.is_fall && !player.is_jump);
    assert_eq!(player.fall_timer, 0);
    assert_eq!(player.force_x, 750);
    assert_eq!(player.move_state, Direction::Right);
    assert!(!player.jump_x_setted && !player.jump_x_decreased);
}

#[test]
fn landing_without_intent_stops_the_player() {
    let mut player = BodyPlayer::new(320, 600);
    player.run(Direction::Right);
    player.run(Direction::Idle);
    assert_eq!(player.force_x, 375);
    player.after_update();
    player.update_correction(&Vector { x: 0, y: -3 });
    assert!(player.is_on_ground);
    assert_eq!(player.force_x, 0);
}

#[test]
fn a_push_to_the_side_in_the_air_halves_the_speed_once() {
    let mut player = grounded(320, 600);
    player.run(Direction::Right);
    player.jump();
    player.update_correction(&Vector { x: -10, y: 0 });
    assert_eq!(player.force_x, 375);
    assert!(player.jump_x_decreased);
    assert!(!player.is_on_ground);
    player.update_correction(&Vector { x: -10, y: 0 });
    assert_eq!(player.force_x, 375);
}

#[test]
fn a_push_down_ends_the_jump_without_grounding() {
    let mut player = grounded(320, 600);
    player.jump();
    player.jump_timer = 120_000;
    player.update_correction(&Vector { x: 0, y: 12 });
    assert!(!player.is_jump && !player.is_on_ground);
    assert_eq!(player.jump_timer, 0);
    player.after_update();
    assert!(player.is_fall);
    assert_eq!(player.last_ground_y, 600);
}

#[test]
fn without_a_correction_the_ground_is_lost() {
    let mut player = grounded(320, 600);
    player.run(Direction::Left);
    let mut rect = record(&player);
    player.update(0, &mut rect);
    player.after_update();
    assert!(!player.is_on_ground);
    assert!(player.is_fall);
    assert_eq!(player.force_x, -750);
    assert!(player.jump_x_setted);
    assert_eq!(player.last_ground_y, 601);
}

#[test]
fn a_corrected_grounded_player_stays_grounded() {
    let mut player = grounded(320, 600);
    let mut rect = record(&player);
    player.update(0, &mut rect);
    player.update_correction(&Vector { x: 0, y: -1 });
    player.after_update();
    assert!(player.is_on_ground && !player.is_fall);
}

#[test]
fn update_rect_writes_the_box() {
    let mut player = BodyPlayer::new(500, 700);
    let mut rect = Rect::new(1, BodyClass::Player, 0, 300, 32, 208);
    player.update_rect(&mut rect);
    assert_eq!(rect.bounds, Bounds { min_x: 468, max_x: 532, min_y: 492, max_y: 700 });
    assert!(!rect.is_updated);
}
