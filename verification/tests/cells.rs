use tile_physics::cells::Cells;

#[test]
fn empty_store_has_no_blocks() {
    let cells = Cells::new(4, 3);
    assert_eq!(cells.width(), 4);
    assert_eq!(cells.height(), 3);
    for y in 0..3 {
        for x in 0..4 {
            assert!(!cells.is_block(x, y));
            assert!(!cells.is_busy(x, y));
        }
    }
}

#[test]
fn outside_the_store_everything_is_occupied() {
    let cells = Cells::new(4, 3);
    assert!(cells.is_block(-1, 0));
    assert!(cells.is_busy(-1, 0));
    assert!(cells.is_block(4, 0));
    assert!(cells.is_busy(4, 0));
    assert!(cells.is_block(0, -1));
    assert!(cells.is_busy(0, 3));
    assert!(cells.is_block(i32::MIN, i32::MAX));
}

#[test]
fn a_store_without_cells_is_all_outside() {
    let cells = Cells::new(0, 0);
    assert!(cells.is_block(0, 0));
    assert!(!cells.can_build(0, 0));
    let negative = Cells::new(-3, -5);
    assert!(negative.is_busy(0, 0));
    assert!(!negative.can_build(-1, -1));
}

#[test]
fn set_block_sets_and_clears_both_bits() {
    let mut cells = Cells::new(4, 3);
    cells.set_block(2, 1, true);
    assert!(cells.is_block(2, 1));
    assert!(cells.is_busy(2, 1));
    assert!(!cells.is_block(1, 1));
    assert!(!cells.is_block(3, 1));
    assert!(!cells.is_block(2, 0));
    assert!(!cells.is_block(2, 2));
    cells.set_block(2, 1, false);
    assert!(!cells.is_block(2, 1));
    assert!(!cells.is_busy(2, 1));
}

#[test]
fn bits_beyond_the_first_word_are_kept_apart() {
    let mut cells = Cells::new(20, 20);
    cells.set_block(3, 3, true);
    cells.set_block(4, 3, true);
    cells.set_block(7, 6, true);
    cells.set_block(19, 19, true);
    cells.set_block(4, 3, false);
    for y in 0..20 {
        for x in 0..20 {
            let expected = (x, y) == (3, 3) || (x, y) == (7, 6) || (x, y) == (19, 19);
            assert_eq!(cells.is_block(x, y), expected);
            assert_eq!(cells.is_busy(x, y), expected);
        }
    }
}

#[test]
fn a_cell_next_to_a_block_can_be_built_on() {
    let mut cells = Cells::new(7, 7);
    assert!(!cells.can_build(3, 3));
    cells.set_block(2, 3, true);
    assert!(cells.can_build(3, 3));
    assert!(cells.can_build(1, 3));
    assert!(cells.can_build(2, 2));
    assert!(cells.can_build(2, 4));
    assert!(!cells.can_build(3, 2));
    assert!(!cells.can_build(4, 3));
}

#[test]
fn a_busy_cell_cannot_be_built_on() {
    let mut cells = Cells::new(7, 7);
    cells.set_block(2, 3, true);
    cells.set_block(3, 3, true);
    assert!(!cells.can_build(2, 3));
    assert!(!cells.can_build(3, 3));
    assert!(cells.can_build(4, 3));
}

#[test]
fn the_edge_of_the_store_counts_as_a_block() {
    let cells = Cells::new(5, 5);
    assert!(cells.can_build(0, 2));
    assert!(cells.can_build(4, 2));
    assert!(cells.can_build(2, 0));
    assert!(cells.can_build(2, 4));
    assert!(!cells.can_build(2, 2));
    assert!(!cells.can_build(-1, 2));
    assert!(!cells.can_build(5, 2));
}

#[test]
fn taking_the_only_neighbour_away_ends_buildability() {
    let mut cells = Cells::new(7, 7);
    cells.set_block(3, 4, true);
    assert!(cells.can_build(3, 3));
    cells.set_block(3, 4, false);
    assert!(!cells.can_build(3, 3));
}
