use std::collections::HashMap;
use tile_physics::body::player::BodyPlayer;
use tile_physics::body::{Body, BodyClass};
use tile_physics::cells::Cells;
use tile_physics::engine::{correct_player, update_correct_players, Bounds, Direction, Rect};

fn floor() -> Cells {
    let mut cells = Cells::new(10, 10);
    for x in 0..10 {
        cells.set_block(x, 5, true);
    }
    cells
}

fn record(player: &BodyPlayer) -> Rect {
    Rect::new(1, BodyClass::Player, player.x, player.y, 32, 208)
}

fn falling(x: i32, y: i32, prev_y: i32) -> BodyPlayer {
    let mut player = BodyPlayer::new(x, prev_y);
    player.after_update();
    player.y = y;
    player
}

#[test]
fn a_player_clear_of_blocks_is_left_alone() {
    let cells = floor();
    let mut player = falling(320, 610, 600);
    let mut rect = record(&player);
    correct_player(&cells, &mut rect, &mut player);
    assert_eq!((player.x, player.y), (320, 610));
    assert!(player.is_fall && !player.is_on_ground);
    assert!(!player.current_tick_corrected);
}

#[test]
fn a_player_on_a_block_edge_is_left_alone() {
    let cells = floor();
    let mut player = falling(320, 640, 610);
    let mut rect = record(&player);
    correct_player(&cells, &mut rect, &mut player);
    assert_eq!((player.x, player.y), (320, 640));
    assert!(player.is_fall);
}

#[test]
fn a_player_falling_onto_a_block_is_put_on_top() {
    let cells = floor();
    let mut player = falling(320, 690, 610);
    let mut rect = record(&player);
    correct_player(&cells, &mut rect, &mut player);
    assert_eq!((player.x, player.y), (320, 640));
    assert!(player.is_on_ground && !player.is_fall);
    assert!(player.current_tick_corrected);
    assert_eq!(rect.bounds, Bounds { min_x: 288, max_x: 352, min_y: 432, max_y: 640 });
}

#[test]
fn a_drifting_player_passes_the_first_overlap() {
    let cells = floor();
    let mut player = BodyPlayer::new(395, 610);
    player.run(Direction::Right);
    player.after_update();
    player.x = 545;
    player.y = 690;
    let mut rect = record(&player);
    correct_player(&cells, &mut rect, &mut player);
    assert_eq!((player.x, player.y), (545, 690));
    assert!(player.is_fall);
    player.prev_x = 545;
    player.prev_y = 690;
    player.x = 552;
    player.y = 696;
    let mut rect = record(&player);
    correct_player(&cells, &mut rect, &mut player);
    assert_eq!((player.x, player.y), (552, 640));
    assert!(player.is_on_ground);
    assert_eq!(player.force_x, 750);
}

#[test]
fn a_standing_player_is_pushed_out_of_a_wall() {
    let mut cells = floor();
    cells.set_block(3, 4, true);
    let mut player = BodyPlayer::new(200, 640);
    player.is_on_ground = true;
    player.x = 360;
    let mut rect = record(&player);
    correct_player(&cells, &mut rect, &mut player);
    assert_eq!(player.x, 352);
    assert_eq!(player.y, 640);
    assert!(!player.is_on_ground);
}

#[test]
fn the_greater_push_wins_on_each_axis() {
    let mut cells = Cells::new(10, 10);
    cells.set_block(2, 5, true);
    cells.set_block(3, 5, true);
    let mut player = BodyPlayer::new(380, 500);
    player.is_on_ground = true;
    player.y = 650;
    let mut rect = record(&player);
    correct_player(&cells, &mut rect, &mut player);
    assert_eq!((player.x, player.y), (380, 640));
    assert!(player.is_on_ground);
}

#[test]
fn a_jumping_player_that_hits_a_ceiling_stops_rising() {
    let mut cells = Cells::new(10, 10);
    cells.set_block(2, 2, true);
    let mut player = BodyPlayer::new(320, 640);
    player.is_on_ground = true;
    player.jump();
    player.prev_y = 600;
    player.y = 580;
    let mut rect = record(&player);
    correct_player(&cells, &mut rect, &mut player);
    assert_eq!(player.y, 592);
    assert!(!player.is_jump && !player.is_on_ground);
}

#[test]
fn every_player_of_the_map_is_resolved() {
    let cells = floor();
    let mut players: HashMap<u32, BodyPlayer> = HashMap::new();
    let mut rects: HashMap<u32, Rect> = HashMap::new();
    let landing = falling(320, 690, 610);
    let clear = falling(700, 500, 480);
    rects.insert(1, record(&landing));
    rects.insert(2, record(&clear));
    rects.insert(3, Rect::new(3, BodyClass::Item, 320, 690, 32, 64));
    players.insert(1, landing);
    players.insert(2, clear);
    update_correct_players(&cells, &mut rects, &mut players);
    assert_eq!((players[&1].x, players[&1].y), (320, 640));
    assert!(players[&1].is_on_ground);
    assert_eq!((players[&2].x, players[&2].y), (700, 500));
    assert_eq!(rects[&1].bounds.max_y, 640);
    assert_eq!(rects[&2].bounds.max_y, 500);
    assert_eq!(rects[&3].bounds, Bounds { min_x: 288, max_x: 352, min_y: 626, max_y: 690 });
}

#[test]
fn the_box_of_a_moved_player_follows_update_rect() {
    let mut player = BodyPlayer::new(320, 640);
    let mut rect = record(&player);
    player.x = 400;
    player.update_rect(&mut rect);
    assert_eq!(rect.bounds.min_x, 368);
}
