use std::collections::HashMap;
use tile_physics::body::BodyClass;
use tile_physics::engine::{Bounds, Rect};
use tile_physics::grid::{can_collide, get_pair_id, get_regions_by_bounds, Grid};

fn bounds(min_x: i32, max_x: i32, min_y: i32, max_y: i32) -> Bounds {
    Bounds { min_x, max_x, min_y, max_y }
}

fn move_to(rects: &mut HashMap<u32, Rect>, id: u32, x: i32, y: i32, half_width: i32, height: i32) {
    let rect = rects.get_mut(&id).unwrap();
    rect.bounds = bounds(x - half_width, x + half_width, y - height, y);
    rect.is_updated = true;
}

#[test]
fn the_pair_key_holds_the_smaller_id_above_the_larger() {
    assert_eq!(get_pair_id(1, 2), (1u64 << 26) + 2);
    assert_eq!(get_pair_id(7, 3), (3u64 << 26) + 7);
    assert_eq!(get_pair_id(0x3FF_FFFF, 0x3FF_FFFE), (0x3FF_FFFEu64 << 26) + 0x3FF_FFFF);
    assert_eq!(get_pair_id(5, 5), (5u64 << 26) + 5);
}

#[test]
fn the_pair_key_does_not_depend_on_the_order() {
    let ids = [0u32, 1, 2, 77, 4096, 0x3FF_FFFE, 0x3FF_FFFF];
    for &a in ids.iter() {
        for &b in ids.iter() {
            assert_eq!(get_pair_id(a, b), get_pair_id(b, a));
        }
    }
}

#[test]
fn different_pairs_have_different_keys() {
    let ids = [1u32, 2, 3, 0x3FF_FFFF];
    let mut seen: Vec<(u64, u32, u32)> = Vec::new();
    for &a in ids.iter() {
        for &b in ids.iter() {
            if a < b {
                let key = get_pair_id(a, b);
                assert!(seen.iter().all(|entry| entry.0 != key));
                seen.push((key, a, b));
            }
        }
    }
    assert_eq!(seen.len(), 6);
}

#[test]
fn classes_collide_by_the_table() {
    let classes = [
        BodyClass::Fixed,
        BodyClass::Sensor,
        BodyClass::Player,
        BodyClass::Ray,
        BodyClass::Item,
        BodyClass::Bullet,
    ];
    let table = [
        [false, false, true, true, true, true],
        [false, false, true, false, false, false],
        [true, true, false, true, true, true],
        [true, false, true, false, false, false],
        [true, false, true, false, false, false],
        [true, false, true, false, false, false],
    ];
    for i in 0..6 {
        for j in 0..6 {
            assert_eq!(can_collide(&classes[i], &classes[j]), table[i][j]);
            assert_eq!(can_collide(&classes[i], &classes[j]), can_collide(&classes[j], &classes[i]));
        }
    }
}

#[test]
fn a_box_inside_one_region_has_one_region() {
    assert_eq!(get_regions_by_bounds(&bounds(0, 64, 0, 64)), [1, 0, 0, 0]);
    assert_eq!(get_regions_by_bounds(&bounds(1024, 1088, 2048, 2100)), [(2 << 16) + 2, 0, 0, 0]);
    assert_eq!(get_regions_by_bounds(&bounds(1023, 1023, 1023, 1023)), [1, 0, 0, 0]);
}

#[test]
fn a_box_across_a_border_has_the_regions_on_both_sides() {
    assert_eq!(get_regions_by_bounds(&bounds(1000, 1064, 0, 208)), [1, 2, 0, 0]);
    assert_eq!(get_regions_by_bounds(&bounds(0, 64, 1000, 1100)), [1, (1 << 16) + 1, 0, 0]);
    assert_eq!(
        get_regions_by_bounds(&bounds(1000, 1064, 1000, 1100)),
        [1, (1 << 16) + 1, 2, (1 << 16) + 2]
    );
}

#[test]
fn regions_beyond_half_the_space_have_their_ids() {
    let edge = 0x200_0000;
    assert_eq!(
        get_regions_by_bounds(&bounds(edge, edge + 64, 100, 308)),
        [32769, 0, 0, 0]
    );
    assert_eq!(
        get_regions_by_bounds(&bounds(100, 164, edge, edge + 208)),
        [i32::MIN + 1, 0, 0, 0]
    );
    assert_eq!(
        get_regions_by_bounds(&bounds(edge - 10, edge + 54, edge - 10, edge + 198)),
        [(32767 << 16) + 32768, i32::MIN + 32768, (32767 << 16) + 32769, i32::MIN + 32769]
    );
}

#[test]
fn the_last_region_has_its_id() {
    let last = 65534 * 1024;
    assert_eq!(
        get_regions_by_bounds(&bounds(last + 10, last + 74, last + 10, last + 74)),
        [-65537, 0, 0, 0]
    );
    assert_eq!(
        get_regions_by_bounds(&bounds(last - 10, last + 54, last - 10, last + 54)),
        [-131074, -65538, -131073, -65537]
    );
}

#[test]
fn regions_before_the_origin_have_their_ids() {
    assert_eq!(get_regions_by_bounds(&bounds(268, 332, -34, 30)), [-65535, 1, 0, 0]);
    assert_eq!(get_regions_by_bounds(&bounds(268, 332, -300, -92)), [-65535, 0, 0, 0]);
    assert_eq!(get_regions_by_bounds(&bounds(-22, 42, 1100, 1200)), [65536, 65537, 0, 0]);
    assert_eq!(get_regions_by_bounds(&bounds(-3000, -2950, -3000, -2950)), [-196610, 0, 0, 0]);
}

#[test]
fn the_region_with_the_id_of_an_unused_slot_ends_the_list() {
    assert_eq!(get_regions_by_bounds(&bounds(-22, 42, 100, 200)), [0, 0, 0, 0]);
    assert_eq!(get_regions_by_bounds(&bounds(-132, -68, 576, 640)), [0, 0, 0, 0]);
    assert_eq!(get_regions_by_bounds(&bounds(-22, 42, -34, 30)), [-65536, 0, 0, 0]);
    assert_eq!(get_regions_by_bounds(&bounds(-22, 42, 1000, 1100)), [0, 0, 0, 0]);
}

#[test]
fn a_box_as_large_as_a_region_has_no_region() {
    assert_eq!(get_regions_by_bounds(&bounds(0, 1024, 0, 10)), [0, 0, 0, 0]);
    assert_eq!(get_regions_by_bounds(&bounds(10, 5, 0, 10)), [0, 0, 0, 0]);
}

#[test]
fn bodies_beyond_half_the_space_are_pairs() {
    let edge = 0x200_0000;
    let mut rects: HashMap<u32, Rect> = HashMap::new();
    let mut grid = Grid::new();
    rects.insert(1, Rect::new(1, BodyClass::Player, edge + 100, edge + 300, 32, 208));
    grid.add(1, &mut rects);
    assert_eq!(rects[&1].regions, [i32::MIN + 32769, 0, 0, 0]);
    rects.insert(2, Rect::new(2, BodyClass::Item, 100, 300, 32, 64));
    grid.add(2, &mut rects);
    assert!(grid.pairs().is_empty());
    move_to(&mut rects, 2, edge + 900, edge + 1000, 32, 64);
    grid.update(2, &mut rects);
    assert_eq!(rects[&2].regions, [i32::MIN + 32769, 0, 0, 0]);
    assert_eq!(grid.pairs()[&get_pair_id(1, 2)].count, 1);
}

#[test]
fn bodies_across_the_upper_edge_are_pairs() {
    let mut rects: HashMap<u32, Rect> = HashMap::new();
    let mut grid = Grid::new();
    rects.insert(1, Rect::new(1, BodyClass::Player, 300, 208, 32, 208));
    grid.add(1, &mut rects);
    rects.insert(2, Rect::new(2, BodyClass::Item, 300, 30, 32, 64));
    grid.add(2, &mut rects);
    assert_eq!(rects[&2].regions, [-65535, 1, 0, 0]);
    assert_eq!(grid.pairs()[&get_pair_id(1, 2)].count, 1);
    move_to(&mut rects, 1, 300, 100, 32, 208);
    grid.update(1, &mut rects);
    assert_eq!(rects[&1].regions, [-65535, 1, 0, 0]);
    assert_eq!(grid.pairs()[&get_pair_id(1, 2)].count, 2);
}

#[test]
fn a_new_grid_holds_no_pair() {
    let grid = Grid::new();
    assert!(grid.pairs().is_empty());
}

#[test]
fn bodies_that_share_a_region_and_may_collide_are_a_pair() {
    let mut rects: HashMap<u32, Rect> = HashMap::new();
    let mut grid = Grid::new();
    rects.insert(1, Rect::new(1, BodyClass::Player, 100, 300, 32, 208));
    grid.add(1, &mut rects);
    assert!(grid.pairs().is_empty());
    assert_eq!(rects[&1].regions, [1, 0, 0, 0]);
    rects.insert(2, Rect::new(2, BodyClass::Item, 900, 1000, 32, 64));
    grid.add(2, &mut rects);
    assert_eq!(grid.pairs().len(), 1);
    let pair = grid.pairs()[&get_pair_id(1, 2)];
    assert_eq!(pair.count, 1);
    assert_eq!((pair.id1, pair.id2), (2, 1));
}

#[test]
fn bodies_whose_classes_do_not_collide_are_no_pair() {
    let mut rects: HashMap<u32, Rect> = HashMap::new();
    let mut grid = Grid::new();
    rects.insert(1, Rect::new(1, BodyClass::Item, 100, 300, 32, 64));
    grid.add(1, &mut rects);
    rects.insert(2, Rect::new(2, BodyClass::Item, 100, 300, 32, 64));
    grid.add(2, &mut rects);
    rects.insert(3, Rect::new(3, BodyClass::Sensor, 100, 300, 32, 64));
    grid.add(3, &mut rects);
    assert!(grid.pairs().is_empty());
    rects.insert(4, Rect::new(4, BodyClass::Player, 100, 300, 32, 208));
    grid.add(4, &mut rects);
    assert_eq!(grid.pairs().len(), 3);
    assert!(grid.pairs().contains_key(&get_pair_id(1, 4)));
    assert!(grid.pairs().contains_key(&get_pair_id(2, 4)));
    assert!(grid.pairs().contains_key(&get_pair_id(3, 4)));
}

#[test]
fn bodies_in_different_regions_are_no_pair() {
    let mut rects: HashMap<u32, Rect> = HashMap::new();
    let mut grid = Grid::new();
    rects.insert(1, Rect::new(1, BodyClass::Player, 100, 300, 32, 208));
    grid.add(1, &mut rects);
    rects.insert(2, Rect::new(2, BodyClass::Item, 3000, 300, 32, 64));
    grid.add(2, &mut rects);
    assert!(grid.pairs().is_empty());
}

#[test]
fn a_pair_counts_the_regions_shared_and_goes_with_the_last() {
    let mut rects: HashMap<u32, Rect> = HashMap::new();
    let mut grid = Grid::new();
    rects.insert(1, Rect::new(1, BodyClass::Player, 100, 1100, 32, 208));
    grid.add(1, &mut rects);
    assert_eq!(rects[&1].regions, [1, (1 << 16) + 1, 0, 0]);
    rects.insert(2, Rect::new(2, BodyClass::Item, 100, 1050, 32, 64));
    grid.add(2, &mut rects);
    let key = get_pair_id(1, 2);
    assert_eq!(grid.pairs()[&key].count, 2);

    move_to(&mut rects, 2, 100, 900, 32, 64);
    grid.update(2, &mut rects);
    assert_eq!(rects[&2].regions, [1, 0, 0, 0]);
    assert!(!rects[&2].is_updated);
    assert_eq!(grid.pairs()[&key].count, 1);

    move_to(&mut rects, 2, 3000, 900, 32, 64);
    grid.update(2, &mut rects);
    assert!(grid.pairs().is_empty());

    move_to(&mut rects, 2, 1020, 1050, 32, 64);
    grid.update(2, &mut rects);
    assert_eq!(rects[&2].regions, [1, (1 << 16) + 1, 2, (1 << 16) + 2]);
    assert_eq!(grid.pairs()[&key].count, 2);
}

#[test]
fn update_without_the_mark_does_nothing() {
    let mut rects: HashMap<u32, Rect> = HashMap::new();
    let mut grid = Grid::new();
    rects.insert(1, Rect::new(1, BodyClass::Player, 100, 300, 32, 208));
    grid.add(1, &mut rects);
    rects.insert(2, Rect::new(2, BodyClass::Item, 100, 300, 32, 64));
    grid.add(2, &mut rects);
    rects.get_mut(&2).unwrap().bounds = bounds(2968, 3032, 236, 300);
    grid.update(2, &mut rects);
    assert_eq!(rects[&2].regions, [1, 0, 0, 0]);
    assert_eq!(grid.pairs().len(), 1);
}

#[test]
fn update_inside_the_same_regions_clears_the_mark_only() {
    let mut rects: HashMap<u32, Rect> = HashMap::new();
    let mut grid = Grid::new();
    rects.insert(1, Rect::new(1, BodyClass::Player, 100, 300, 32, 208));
    grid.add(1, &mut rects);
    rects.insert(2, Rect::new(2, BodyClass::Item, 100, 300, 32, 64));
    grid.add(2, &mut rects);
    move_to(&mut rects, 1, 500, 700, 32, 208);
    grid.update(1, &mut rects);
    assert!(!rects[&1].is_updated);
    assert_eq!(rects[&1].regions, [1, 0, 0, 0]);
    assert_eq!(grid.pairs()[&get_pair_id(1, 2)].count, 1);
}

#[test]
fn removing_a_body_removes_its_pairs() {
    let mut rects: HashMap<u32, Rect> = HashMap::new();
    let mut grid = Grid::new();
    rects.insert(1, Rect::new(1, BodyClass::Player, 100, 1100, 32, 208));
    grid.add(1, &mut rects);
    rects.insert(2, Rect::new(2, BodyClass::Item, 100, 1050, 32, 64));
    grid.add(2, &mut rects);
    rects.insert(3, Rect::new(3, BodyClass::Fixed, 200, 500, 32, 64));
    grid.add(3, &mut rects);
    assert_eq!(grid.pairs().len(), 3);
    let rect = rects.remove(&1).unwrap();
    grid.remove(&rect);
    assert_eq!(grid.pairs().len(), 1);
    assert!(grid.pairs().contains_key(&get_pair_id(2, 3)));
    rects.insert(4, Rect::new(4, BodyClass::Player, 100, 300, 32, 208));
    grid.add(4, &mut rects);
    assert_eq!(grid.pairs().len(), 3);
    assert_eq!(grid.pairs()[&get_pair_id(4, 2)].count, 1);
    assert_eq!(grid.pairs()[&get_pair_id(4, 3)].count, 1);
}
