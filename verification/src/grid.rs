use vstd::prelude::*;
use std::collections::{HashMap, HashSet};
use std::collections::hash_map::Entry;
use vstd::std_specs::iter::IteratorSpec;
use crate::body::{BodyClass, BodyId, MAX_BODY_ID};
use crate::engine::{Bounds, Rect, Rects, RegionId, RegionsIds};

verus! {

/// Key of a pair of bodies.
pub type PairId = u64;

/// Two bodies that share a region and whose classes may collide. `count`
/// is the number of regions that they share.
#[derive(Copy, Clone, Debug)]
pub struct Pair {
    pub id1: BodyId,
    pub id2: BodyId,
    pub count: u8,
}

/// The key of the pair of `id1` and `id2`: the smaller id above the larger
/// one, which takes the low 26 bits.
pub open spec fn pair_id(id1: BodyId, id2: BodyId) -> PairId {
    if id1 < id2 {
        (id1 * 0x400_0000 + id2) as u64
    } else {
        (id2 * 0x400_0000 + id1) as u64
    }
}

/// The key of the pair of `id1` and `id2`.
pub fn get_pair_id(id1: BodyId, id2: BodyId) -> (key: PairId)
    ensures
        key == pair_id(id1, id2),
        key == pair_id(id2, id1),
{
    let id1_num = id1 as u64;
    let id2_num = id2 as u64;
    assert(id1_num << 26 == id1_num * 0x400_0000) by (bit_vector)
        requires
            id1_num <= 0xFFFF_FFFF,
    ;
    assert(id2_num << 26 == id2_num * 0x400_0000) by (bit_vector)
        requires
            id2_num <= 0xFFFF_FFFF,
    ;
    if id1_num < id2_num {
        (id1_num << 26) + id2_num
    } else {
        (id2_num << 26) + id1_num
    }
}

/// The key of a pair does not depend on the order of its two bodies.
pub proof fn lemma_pair_id_commutative(id1: BodyId, id2: BodyId)
    ensures
        pair_id(id1, id2) == pair_id(id2, id1),
{
}

/// Two pairs of bodies with ids up to the largest one have the same key
/// only if they are the same pair.
pub proof fn lemma_pair_id_injective(a: BodyId, b: BodyId, c: BodyId, d: BodyId)
    requires
        a <= MAX_BODY_ID,
        b <= MAX_BODY_ID,
        c <= MAX_BODY_ID,
        d <= MAX_BODY_ID,
        pair_id(a, b) == pair_id(c, d),
    ensures
        (a == c && b == d) || (a == d && b == c),
{
}

/// The category bit of a class.
pub open spec fn category_of(class: BodyClass) -> u8 {
    match class {
        BodyClass::Fixed => 0b0000_0001,
        BodyClass::Sensor => 0b0000_0010,
        BodyClass::Player => 0b0000_0100,
        BodyClass::Ray => 0b0000_1000,
        BodyClass::Item => 0b0001_0000,
        BodyClass::Bullet => 0b0010_0000,
    }
}

/// The categories that a class collides with.
pub open spec fn filter_of(class: BodyClass) -> u8 {
    match class {
        BodyClass::Fixed => 0b0011_1100,
        BodyClass::Sensor => 0b0000_0100,
        BodyClass::Player => 0b0011_1011,
        BodyClass::Ray => 0b0000_0101,
        BodyClass::Item => 0b0000_0101,
        BodyClass::Bullet => 0b0000_0101,
    }
}

/// Whether bodies of the two classes may collide: a player with every
/// other class, a sensor with players only, rays, items and bullets with
/// fixed bodies and players, and no class with itself.
pub open spec fn compatible(class1: BodyClass, class2: BodyClass) -> bool {
    class1 != class2 && (class1 == BodyClass::Player || class2 == BodyClass::Player || (class1
        == BodyClass::Fixed && class2 != BodyClass::Sensor) || (class2 == BodyClass::Fixed
        && class1 != BodyClass::Sensor))
}

fn category(class: &BodyClass) -> (bits: u8)
    ensures
        bits == category_of(*class),
{
    match class {
        BodyClass::Fixed => 0b0000_0001,
        BodyClass::Sensor => 0b0000_0010,
        BodyClass::Player => 0b0000_0100,
        BodyClass::Ray => 0b0000_1000,
        BodyClass::Item => 0b0001_0000,
        BodyClass::Bullet => 0b0010_0000,
    }
}

fn filter(class: &BodyClass) -> (bits: u8)
    ensures
        bits == filter_of(*class),
{
    match class {
        BodyClass::Fixed => 0b0011_1100,
        BodyClass::Sensor => 0b0000_0100,
        BodyClass::Player => 0b0011_1011,
        BodyClass::Ray => 0b0000_0101,
        BodyClass::Item => 0b0000_0101,
        BodyClass::Bullet => 0b0000_0101,
    }
}

/// The table of classes is what the category of the first class and the
/// filter of the second give, in either order.
pub proof fn lemma_compatible_by_filter(class1: BodyClass, class2: BodyClass)
    ensures
        compatible(class1, class2) <==> class1 != class2 && category_of(class1) & filter_of(class2)
            != 0,
        compatible(class1, class2) <==> compatible(class2, class1),
{
    assert(0b0000_0001u8 & 0b0011_1100u8 == 0) by (bit_vector);
    assert(0b0000_0001u8 & 0b0000_0100u8 == 0) by (bit_vector);
    assert(0b0000_0001u8 & 0b0011_1011u8 != 0) by (bit_vector);
    assert(0b0000_0001u8 & 0b0000_0101u8 != 0) by (bit_vector);
    assert(0b0000_0010u8 & 0b0011_1100u8 == 0) by (bit_vector);
    assert(0b0000_0010u8 & 0b0000_0100u8 == 0) by (bit_vector);
    assert(0b0000_0010u8 & 0b0011_1011u8 != 0) by (bit_vector);
    assert(0b0000_0010u8 & 0b0000_0101u8 == 0) by (bit_vector);
    assert(0b0000_0100u8 & 0b0011_1100u8 != 0) by (bit_vector);
    assert(0b0000_0100u8 & 0b0000_0100u8 != 0) by (bit_vector);
    assert(0b0000_0100u8 & 0b0011_1011u8 == 0) by (bit_vector);
    assert(0b0000_0100u8 & 0b0000_0101u8 != 0) by (bit_vector);
    assert(0b0000_1000u8 & 0b0011_1100u8 != 0) by (bit_vector);
    assert(0b0000_1000u8 & 0b0000_0100u8 == 0) by (bit_vector);
    assert(0b0000_1000u8 & 0b0011_1011u8 != 0) by (bit_vector);
    assert(0b0000_1000u8 & 0b0000_0101u8 == 0) by (bit_vector);
    assert(0b0001_0000u8 & 0b0011_1100u8 != 0) by (bit_vector);
    assert(0b0001_0000u8 & 0b0000_0100u8 == 0) by (bit_vector);
    assert(0b0001_0000u8 & 0b0011_1011u8 != 0) by (bit_vector);
    assert(0b0001_0000u8 & 0b0000_0101u8 == 0) by (bit_vector);
    assert(0b0010_0000u8 & 0b0011_1100u8 != 0) by (bit_vector);
    assert(0b0010_0000u8 & 0b0000_0100u8 == 0) by (bit_vector);
    assert(0b0010_0000u8 & 0b0011_1011u8 != 0) by (bit_vector);
    assert(0b0010_0000u8 & 0b0000_0101u8 == 0) by (bit_vector);
}

/// Whether bodies of the two classes may collide.
pub fn can_collide(class1: &BodyClass, class2: &BodyClass) -> (possible: bool)
    ensures
        possible == compatible(*class1, *class2),
        possible == compatible(*class2, *class1),
{
    proof {
        lemma_compatible_by_filter(*class1, *class2);
    }
    if class1 == class2 {
        return false;
    }
    let category = category(class1);
    let filter = filter(class2);
    if category & filter == 0 {
        return false;
    }
    true
}

/// Marks an unused slot among the regions of a body.
pub const EMPTY_REGION: RegionId = 0;

/// Edge length of a region.
pub const REGION_SIZE: i32 = 1024;

/// Number of the last column and row of regions that a world spans: the
/// number of the column, plus one, still fits 16 bits.
pub const LAST_REGION: i32 = 0xFFFE;

/// Column or row of the region that holds the coordinate `v`; the
/// regions before the origin have negative numbers.
pub open spec fn region_of(v: int) -> int {
    v / (REGION_SIZE as int)
}

/// Id of the region in column `col` and row `row`: the row shifted up by
/// 16 bits, plus the column plus one, taken as a value of 32 bits. From
/// the origin up to the last region each region has an id of its own,
/// and none has the id of an unused slot. Beyond that, ids repeat; and
/// the region in row 0 of the column before the origin has the id of an
/// unused slot.
pub open spec fn region_id(col: int, row: int) -> RegionId {
    (row * 0x1_0000 + col + 1) as i32
}

/// The box has its edges in order and is smaller than a region, so that
/// it touches at most two columns and two rows.
pub open spec fn addressable(bounds: Bounds) -> bool {
    &&& bounds.min_x <= bounds.max_x
    &&& bounds.min_y <= bounds.max_y
    &&& bounds.max_x - bounds.min_x < REGION_SIZE
    &&& bounds.max_y - bounds.min_y < REGION_SIZE
}

/// The ids of the regions that the box touches, column by column, in four
/// slots of which the unused ones come last. A box with its edges out of
/// order, or as large as a region, has none.
pub open spec fn touched_regions(bounds: Bounds) -> Seq<RegionId> {
    let c0 = region_of(bounds.min_x as int);
    let c1 = region_of(bounds.max_x as int);
    let r0 = region_of(bounds.min_y as int);
    let r1 = region_of(bounds.max_y as int);
    if !addressable(bounds) {
        seq![0i32, 0i32, 0i32, 0i32]
    } else if c0 == c1 {
        if r0 == r1 {
            seq![region_id(c0, r0), 0i32, 0i32, 0i32]
        } else {
            seq![region_id(c0, r0), region_id(c0, r1), 0i32, 0i32]
        }
    } else {
        if r0 == r1 {
            seq![region_id(c0, r0), region_id(c1, r0), 0i32, 0i32]
        } else {
            seq![region_id(c0, r0), region_id(c0, r1), region_id(c1, r0), region_id(c1, r1)]
        }
    }
}

/// The slots up to the first that is unused, and unused slots after it.
pub open spec fn cut_at_empty(slots: Seq<RegionId>) -> Seq<RegionId> {
    seq![
        slots[0],
        if slots[0] != 0 {
            slots[1]
        } else {
            0i32
        },
        if slots[0] != 0 && slots[1] != 0 {
            slots[2]
        } else {
            0i32
        },
        if slots[0] != 0 && slots[1] != 0 && slots[2] != 0 {
            slots[3]
        } else {
            0i32
        },
    ]
}

/// The regions in which a body with this box is registered: those that
/// the box touches, column by column, in four slots of which the unused
/// ones come last. A region whose id is that of an unused slot ends the
/// list: neither it nor the regions after it are among them.
pub open spec fn regions_for(bounds: Bounds) -> Seq<RegionId> {
    cut_at_empty(touched_regions(bounds))
}

/// No region that the box touches has the id of an unused slot, so that
/// the body is registered in all of them.
pub open spec fn uncut(bounds: Bounds) -> bool {
    &&& addressable(bounds)
    &&& region_id(region_of(bounds.min_x as int), region_of(bounds.min_y as int)) != 0
    &&& region_id(region_of(bounds.min_x as int), region_of(bounds.max_y as int)) != 0
    &&& region_id(region_of(bounds.max_x as int), region_of(bounds.min_y as int)) != 0
    &&& region_id(region_of(bounds.max_x as int), region_of(bounds.max_y as int)) != 0
}

/// Bodies with these boxes are registered in a common region.
pub open spec fn shares_region(a: Bounds, b: Bounds) -> bool {
    exists|r: RegionId|
        region_set(regions_for(a)).contains(r) && region_set(regions_for(b)).contains(r)
}

/// Four slots, the used ones first and all different.
pub open spec fn regions_wf(regions: Seq<RegionId>) -> bool {
    &&& regions.len() == 4
    &&& forall|i: int, j: int| 0 <= i < j < 4 && regions[i] == 0 ==> regions[j] == 0
    &&& forall|i: int, j: int| 0 <= i < j < 4 && regions[i] != 0 ==> regions[i] != regions[j]
}

/// The regions named in the first `count` slots.
pub open spec fn slots_upto(regions: Seq<RegionId>, count: int) -> Set<RegionId> {
    Set::new(
        |r: RegionId|
            r != 0 && ((count > 0 && regions[0] == r) || (count > 1 && regions[1] == r) || (count
                > 2 && regions[2] == r) || (count > 3 && regions[3] == r)),
    )
}

/// The regions named in the slots.
pub open spec fn region_set(regions: Seq<RegionId>) -> Set<RegionId> {
    slots_upto(regions, 4)
}

proof fn lemma_clipped_apart(a: i64, d: i64)
    by (bit_vector)
    requires
        -0x100_0000_0000 <= a <= 0x100_0000_0000,
        d == 1 || d == 0xFFFF || d == 0x1_0000 || d == 0x1_0001,
    ensures
        (a as i32) != ((a + d) as i32),
{
}

proof fn lemma_clipped_nonzero(col: i64, row: i64)
    by (bit_vector)
    requires
        0 <= col <= 0xFFFE,
        -0x20_0000 <= row <= 0x20_0000,
    ensures
        ((row * 0x1_0000 + col + 1) as i32) != 0,
{
}

proof fn lemma_clipped_wrapped(number: i64)
    by (bit_vector)
    requires
        0x8000_0000 <= number <= 0xFFFF_FFFF,
    ensures
        (number as i32) == number - 0x1_0000_0000,
{
}

proof fn lemma_clipped_empty(col: i64, row: i64)
    by (bit_vector)
    requires
        -1 <= col <= 0xFFFF,
        -0xFFFF <= row <= 0xFFFE,
    ensures
        ((row * 0x1_0000 + col + 1) as i32) == 0 <==> (col == -1 && row == 0) || (col == 0xFFFF
            && row == -1),
{
}

/// Neighbouring regions have different ids.
pub proof fn lemma_region_ids_differ(col: int, row: int)
    requires
        -0x20_0000 <= col <= 0x20_0000,
        -0x20_0000 <= row <= 0x20_0000,
    ensures
        region_id(col, row) != region_id(col + 1, row),
        region_id(col, row) != region_id(col, row + 1),
        region_id(col, row) != region_id(col + 1, row + 1),
        region_id(col + 1, row) != region_id(col, row + 1),
        region_id(col + 1, row) != region_id(col + 1, row + 1),
        region_id(col, row + 1) != region_id(col + 1, row + 1),
{
    let a = (row * 0x1_0000 + col + 1) as i64;
    lemma_clipped_apart(a, 1);
    lemma_clipped_apart(a, 0x1_0000);
    lemma_clipped_apart(a, 0x1_0001);
    lemma_clipped_apart((a + 1) as i64, 0xFFFF);
    lemma_clipped_apart((a + 1) as i64, 0x1_0000);
    lemma_clipped_apart((a + 0x1_0000) as i64, 1);
}

/// From the origin up to the last column no region has the id of an
/// unused slot, whatever its row.
pub proof fn lemma_region_id_used(col: int, row: int)
    requires
        0 <= col <= LAST_REGION,
        -0x20_0000 <= row <= 0x20_0000,
    ensures
        region_id(col, row) != 0,
{
    lemma_clipped_nonzero(col as i64, row as i64);
}

/// The id of a region is the row times 65536, plus the column plus one,
/// where a signed value of 32 bits holds that number; where only an
/// unsigned one does, the id is the number less 2 to the power of 32.
pub proof fn lemma_region_id_value(col: int, row: int)
    ensures
        i32::MIN <= row * 0x1_0000 + col + 1 <= i32::MAX ==> region_id(col, row) == row * 0x1_0000
            + col + 1,
        i32::MAX < row * 0x1_0000 + col + 1 <= u32::MAX ==> region_id(col, row) == row * 0x1_0000
            + col + 1 - 0x1_0000_0000,
{
    let number = row * 0x1_0000 + col + 1;
    if i32::MAX < number <= u32::MAX {
        lemma_clipped_wrapped(number as i64);
    }
}

/// Of the regions from the column before the origin to the column after
/// the last, in rows of up to 16 bits on either side of the origin, two
/// have the id of an unused slot: the region in row 0 of the column before
/// the origin, and the region in the row before the origin of the column
/// after the last.
pub proof fn lemma_region_id_empty(col: int, row: int)
    requires
        -1 <= col <= LAST_REGION + 1,
        -0xFFFF <= row <= 0xFFFE,
    ensures
        region_id(col, row) == 0 <==> (col == -1 && row == 0) || (col == LAST_REGION + 1 && row
            == -1),
{
    lemma_clipped_empty(col as i64, row as i64);
}

/// A box that touches neither of the two regions with the id of an
/// unused slot is registered in every region that it touches; one that
/// does is not.
pub proof fn lemma_uncut_but_for_two(bounds: Bounds)
    requires
        addressable(bounds),
        -REGION_SIZE <= bounds.min_x,
        bounds.max_x < (LAST_REGION + 2) * REGION_SIZE,
        -0xFFFF * REGION_SIZE <= bounds.min_y,
        bounds.max_y < 0xFFFF * REGION_SIZE,
    ensures
        uncut(bounds) <==> !(region_of(bounds.min_x as int) == -1 && region_of(bounds.min_y as int)
            <= 0 <= region_of(bounds.max_y as int)) && !(region_of(bounds.max_x as int)
            == LAST_REGION + 1 && region_of(bounds.min_y as int) <= -1 <= region_of(
            bounds.max_y as int,
        )),
{
    let c0 = region_of(bounds.min_x as int);
    let c1 = region_of(bounds.max_x as int);
    let r0 = region_of(bounds.min_y as int);
    let r1 = region_of(bounds.max_y as int);
    assert(c0 <= c1 <= c0 + 1);
    assert(r0 <= r1 <= r0 + 1);
    lemma_region_id_empty(c0, r0);
    lemma_region_id_empty(c0, r1);
    lemma_region_id_empty(c1, r0);
    lemma_region_id_empty(c1, r1);
}

/// A box whose left edge is not before the origin and whose right edge
/// is not beyond the last column of regions is registered in every region
/// that it touches.
pub proof fn lemma_uncut(bounds: Bounds)
    requires
        addressable(bounds),
        0 <= bounds.min_x,
        bounds.max_x < (LAST_REGION + 1) * REGION_SIZE,
    ensures
        uncut(bounds),
{
    let c0 = region_of(bounds.min_x as int);
    let c1 = region_of(bounds.max_x as int);
    let r0 = region_of(bounds.min_y as int);
    let r1 = region_of(bounds.max_y as int);
    lemma_region_id_used(c0, r0);
    lemma_region_id_used(c0, r1);
    lemma_region_id_used(c1, r0);
    lemma_region_id_used(c1, r1);
}

/// The regions of a box are well formed: the used slots come first and
/// name different regions. Without a region whose id is that of an unused
/// slot, they are the regions of the columns and rows that the box
/// touches, of which there is at least one.
pub proof fn lemma_regions_for(bounds: Bounds)
    ensures
        regions_wf(regions_for(bounds)),
        uncut(bounds) ==> regions_for(bounds) == touched_regions(bounds) && regions_for(
            bounds,
        )[0] != 0,
        uncut(bounds) ==> forall|r: RegionId| #[trigger]
            region_set(regions_for(bounds)).contains(r) <==> exists|col: int, row: int|
                region_of(bounds.min_x as int) <= col <= region_of(bounds.max_x as int)
                    && region_of(bounds.min_y as int) <= row <= region_of(bounds.max_y as int)
                    && r == #[trigger] region_id(col, row),
{
    let c0 = region_of(bounds.min_x as int);
    let c1 = region_of(bounds.max_x as int);
    let r0 = region_of(bounds.min_y as int);
    let r1 = region_of(bounds.max_y as int);
    let touched = touched_regions(bounds);
    let regions = regions_for(bounds);
    if addressable(bounds) {
        assert(c0 <= c1 <= c0 + 1);
        assert(r0 <= r1 <= r0 + 1);
        lemma_region_ids_differ(c0, r0);
    }
    assert(regions_wf(regions));
    if uncut(bounds) {
        assert(regions =~= touched);
        assert forall|r: RegionId| #[trigger]
            region_set(regions).contains(r) <==> exists|col: int, row: int|
                c0 <= col <= c1 && r0 <= row <= r1 && r == #[trigger] region_id(col, row) by {
            if region_set(regions).contains(r) {
                if r == region_id(c0, r0) {
                } else if r == region_id(c0, r1) {
                } else if r == region_id(c1, r0) {
                } else {
                    assert(r == region_id(c1, r1));
                }
            }
            if exists|col: int, row: int|
                c0 <= col <= c1 && r0 <= row <= r1 && r == #[trigger] region_id(col, row) {
                let (col, row) = choose|col: int, row: int|
                    c0 <= col <= c1 && r0 <= row <= r1 && r == #[trigger] region_id(col, row);
                if col == c0 && row == r0 {
                    assert(regions[0] == r);
                } else if col == c0 && row == r1 {
                    assert(regions[1] == r);
                } else if col == c1 && row == r0 {
                    assert(regions[1] == r || regions[2] == r);
                } else {
                    assert(regions[3] == r);
                }
            }
        }
    }
}

/// Two boxes that overlap or touch share a region in which both bodies
/// are registered, where neither touches a region with the id of an
/// unused slot.
pub proof fn lemma_overlap_shares_region(a: Bounds, b: Bounds)
    requires
        uncut(a),
        uncut(b),
        crate::engine::overlap_x(a, b) >= 0,
        crate::engine::overlap_y(a, b) >= 0,
    ensures
        shares_region(a, b),
{
    lemma_regions_for(a);
    lemma_regions_for(b);
    let px = if a.min_x >= b.min_x { a.min_x as int } else { b.min_x as int };
    let py = if a.min_y >= b.min_y { a.min_y as int } else { b.min_y as int };
    let col = region_of(px);
    let row = region_of(py);
    let r = region_id(col, row);
    assert(region_of(a.min_x as int) <= col <= region_of(a.max_x as int));
    assert(region_of(a.min_y as int) <= row <= region_of(a.max_y as int));
    assert(region_of(b.min_x as int) <= col <= region_of(b.max_x as int));
    assert(region_of(b.min_y as int) <= row <= region_of(b.max_y as int));
    assert(region_set(regions_for(a)).contains(r));
    assert(region_set(regions_for(b)).contains(r));
}

fn region_index(v: i32) -> (index: i32)
    ensures
        index == region_of(v as int),
{
    assert(v >> 10 == (v as int) / 1024) by (bit_vector);
    v >> 10
}

/// The id of the region in row `row` of the column whose number plus one
/// is `column`.
fn region_number(column: i32, row: i32) -> (id: RegionId)
    requires
        -0x20_0000 <= column <= 0x20_0001,
        -0x20_0000 <= row <= 0x20_0000,
    ensures
        id == region_id(column - 1, row as int),
{
    #[verifier::truncate]
    (((row as i64) * 0x1_0000 + (column as i64)) as i32)
}

/// Whether the box has its edges in order and is smaller than a region.
pub fn can_address(bounds: &Bounds) -> (possible: bool)
    ensures
        possible == addressable(*bounds),
{
    bounds.min_x <= bounds.max_x && bounds.min_y <= bounds.max_y && (bounds.max_x as i64)
        - (bounds.min_x as i64) < REGION_SIZE as i64 && (bounds.max_y as i64) - (
    bounds.min_y as i64) < REGION_SIZE as i64
}

/// The regions in which a body with this box is registered.
pub fn get_regions_by_bounds(bounds: &Bounds) -> (regions: RegionsIds)
    ensures
        regions@ == regions_for(*bounds),
{
    let mut regions: RegionsIds = [0; 4];
    if !can_address(bounds) {
        assert(regions@ =~= regions_for(*bounds));
        return regions;
    }
    let min_x = region_index(bounds.min_x) + 1;
    let max_x = region_index(bounds.max_x) + 1;
    let min_y = region_index(bounds.min_y);
    let max_y = region_index(bounds.max_y);
    let ghost target = touched_regions(*bounds);
    let mut index: usize = 0;
    let mut x = min_x;
    while x <= max_x
        invariant
            addressable(*bounds),
            target == touched_regions(*bounds),
            min_x == region_of(bounds.min_x as int) + 1,
            max_x == region_of(bounds.max_x as int) + 1,
            min_y == region_of(bounds.min_y as int),
            max_y == region_of(bounds.max_y as int),
            min_x <= x <= max_x + 1,
            max_x <= min_x + 1,
            max_y <= min_y + 1,
            x == min_x ==> index == 0,
            x == min_x + 1 ==> index == max_y - min_y + 1,
            x == min_x + 2 ==> index == 2 * (max_y - min_y + 1),
            forall|k: int| 0 <= k < 4 ==> regions@[k] == (if k < index { target[k] } else { 0i32 }),
        decreases max_x + 1 - x,
    {
        let mut y = min_y;
        while y <= max_y
            invariant
                addressable(*bounds),
                target == touched_regions(*bounds),
                min_x == region_of(bounds.min_x as int) + 1,
                max_x == region_of(bounds.max_x as int) + 1,
                min_y == region_of(bounds.min_y as int),
                max_y == region_of(bounds.max_y as int),
                min_x <= x <= max_x,
                min_y <= y <= max_y + 1,
                max_x <= min_x + 1,
                max_y <= min_y + 1,
                x == min_x ==> index == y - min_y,
                x == min_x + 1 ==> index == max_y - min_y + 1 + (y - min_y),
                forall|k: int|
                    0 <= k < 4 ==> regions@[k] == (if k < index { target[k] } else { 0i32 }),
            decreases max_y + 1 - y,
        {
            regions[index] = region_number(x, y);
            index = index + 1;
            y = y + 1;
        }
        x = x + 1;
    }
    assert(regions@ =~= target);
    if regions[0] == EMPTY_REGION {
        regions[1] = EMPTY_REGION;
        regions[2] = EMPTY_REGION;
        regions[3] = EMPTY_REGION;
    } else if regions[1] == EMPTY_REGION {
        regions[2] = EMPTY_REGION;
        regions[3] = EMPTY_REGION;
    } else if regions[2] == EMPTY_REGION {
        regions[3] = EMPTY_REGION;
    }
    assert(regions@ =~= regions_for(*bounds));
    regions
}

/// What the grid knows of a body that it has registered.
pub struct Member {
    pub class: BodyClass,
    /// The regions in whose buckets the body is.
    pub regions: Set<RegionId>,
}

/// Every registered body has an id that a pair key can hold, and is in at
/// most four regions, none of which has the id of an unused slot.
pub open spec fn members_ok(members: Map<BodyId, Member>) -> bool {
    forall|id: BodyId| #[trigger]
        members.contains_key(id) ==> id <= MAX_BODY_ID && members[id].regions.finite()
            && members[id].regions.len() <= 4 && !members[id].regions.contains(0)
}

/// The bucket of a region holds exactly the bodies registered in it.
pub open spec fn buckets_match(
    buckets: Map<RegionId, Set<BodyId>>,
    members: Map<BodyId, Member>,
) -> bool {
    forall|r: RegionId, id: BodyId|
        #![trigger buckets[r].contains(id)]
        #![trigger members[id].regions.contains(r)]
        (buckets.contains_key(r) && buckets[r].contains(id)) <==> (members.contains_key(id)
            && members[id].regions.contains(r))
}

/// The pair of `a` and `b` is held with `shared` as its count if their
/// classes may collide and they share a region, and is not held else.
pub open spec fn pair_ok(
    pairs: Map<PairId, Pair>,
    a: BodyId,
    b: BodyId,
    possible: bool,
    shared: int,
) -> bool {
    let key = pair_id(a, b);
    if possible && shared > 0 {
        &&& pairs.contains_key(key)
        &&& pairs[key].count == shared
        &&& ((pairs[key].id1 == a && pairs[key].id2 == b) || (pairs[key].id1 == b
            && pairs[key].id2 == a))
    } else {
        !pairs.contains_key(key)
    }
}

/// Every pair held is one of two different registered bodies, under the
/// key of the two.
pub open spec fn pairs_sound(pairs: Map<PairId, Pair>, members: Map<BodyId, Member>) -> bool {
    forall|key: PairId| #[trigger]
        pairs.contains_key(key) ==> members.contains_key(pairs[key].id1) && members.contains_key(
            pairs[key].id2,
        ) && pairs[key].id1 != pairs[key].id2 && key == pair_id(pairs[key].id1, pairs[key].id2)
}

/// For any two registered bodies the pair is held exactly if their
/// classes may collide and they share a region, and it counts the regions
/// that they share.
pub open spec fn pairs_match(pairs: Map<PairId, Pair>, members: Map<BodyId, Member>) -> bool {
    forall|a: BodyId, b: BodyId|
        members.contains_key(a) && members.contains_key(b) && a != b ==> #[trigger] pair_ok(
            pairs,
            a,
            b,
            compatible(members[a].class, members[b].class),
            members[a].regions.intersect(members[b].regions).len() as int,
        )
}

/// The body `id` while the pairs do not yet reflect its regions: against
/// every other body the regions in `counted` are counted, and `region` is
/// counted too (or no longer, by `sign`) against the bodies in `done`.
struct Lag {
    id: BodyId,
    counted: Set<RegionId>,
    region: RegionId,
    done: Set<BodyId>,
    sign: int,
}

spec fn lag_shared(lag: Lag, other: BodyId, regions: Set<RegionId>) -> int {
    lag.counted.intersect(regions).len() + (if lag.done.contains(other) && regions.contains(
        lag.region,
    ) {
        lag.sign
    } else {
        0
    })
}

spec fn pairs_lagged(pairs: Map<PairId, Pair>, members: Map<BodyId, Member>, lag: Lag) -> bool {
    &&& members.contains_key(lag.id)
    &&& lag.counted.finite()
    &&& forall|a: BodyId, b: BodyId|
        members.contains_key(a) && members.contains_key(b) && a != b && a != lag.id && b != lag.id
            ==> #[trigger] pair_ok(
            pairs,
            a,
            b,
            compatible(members[a].class, members[b].class),
            members[a].regions.intersect(members[b].regions).len() as int,
        )
    &&& forall|o: BodyId|
        members.contains_key(o) && o != lag.id ==> #[trigger] pair_ok(
            pairs,
            lag.id,
            o,
            compatible(members[lag.id].class, members[o].class),
            lag_shared(lag, o, members[o].regions),
        )
}

/// The lag of a body of which `counted` is counted against every other.
spec fn resting(id: BodyId, counted: Set<RegionId>) -> Lag {
    Lag { id, counted, region: 0, done: Set::empty(), sign: 0 }
}

proof fn lemma_pair_ok_symmetric(
    pairs: Map<PairId, Pair>,
    a: BodyId,
    b: BodyId,
    possible: bool,
    shared: int,
)
    ensures
        pair_ok(pairs, a, b, possible, shared) == pair_ok(pairs, b, a, possible, shared),
{
}

/// Pairs that reflect all regions of `id` are pairs that match.
proof fn lemma_lag_closed(pairs: Map<PairId, Pair>, members: Map<BodyId, Member>, id: BodyId)
    requires
        members.contains_key(id),
        members[id].regions.finite(),
    ensures
        pairs_lagged(pairs, members, resting(id, members[id].regions)) <==> pairs_match(
            pairs,
            members,
        ),
{
    let lag = resting(id, members[id].regions);
    if pairs_lagged(pairs, members, lag) {
        assert forall|a: BodyId, b: BodyId|
            members.contains_key(a) && members.contains_key(b) && a != b implies #[trigger] pair_ok(
            pairs,
            a,
            b,
            compatible(members[a].class, members[b].class),
            members[a].regions.intersect(members[b].regions).len() as int,
        ) by {
            lemma_compatible_by_filter(members[a].class, members[b].class);
            if a == id {
                assert(pair_ok(
                    pairs,
                    id,
                    b,
                    compatible(members[id].class, members[b].class),
                    lag_shared(lag, b, members[b].regions),
                ));
            } else if b == id {
                assert(pair_ok(
                    pairs,
                    id,
                    a,
                    compatible(members[id].class, members[a].class),
                    lag_shared(lag, a, members[a].regions),
                ));
                assert(members[a].regions.intersect(members[id].regions)
                    =~= members[id].regions.intersect(members[a].regions));
                lemma_pair_ok_symmetric(
                    pairs,
                    id,
                    a,
                    compatible(members[id].class, members[a].class),
                    lag_shared(lag, a, members[a].regions),
                );
            }
        }
    }
    if pairs_match(pairs, members) {
        assert forall|o: BodyId| members.contains_key(o) && o != lag.id implies #[trigger] pair_ok(
            pairs,
            lag.id,
            o,
            compatible(members[lag.id].class, members[o].class),
            lag_shared(lag, o, members[o].regions),
        ) by {
            assert(pair_ok(
                pairs,
                id,
                o,
                compatible(members[id].class, members[o].class),
                members[id].regions.intersect(members[o].regions).len() as int,
            ));
        }
    }
}

/// Before any other body is done, nothing of `region` has changed.
proof fn lemma_lag_start(
    pairs: Map<PairId, Pair>,
    members: Map<BodyId, Member>,
    id: BodyId,
    counted: Set<RegionId>,
    region: RegionId,
    sign: int,
)
    requires
        pairs_lagged(pairs, members, resting(id, counted)),
    ensures
        pairs_lagged(pairs, members, Lag { id, counted, region, done: Set::empty(), sign }),
{
    let lag = Lag { id, counted, region, done: Set::empty(), sign };
    assert forall|o: BodyId| members.contains_key(o) && o != lag.id implies #[trigger] pair_ok(
        pairs,
        lag.id,
        o,
        compatible(members[lag.id].class, members[o].class),
        lag_shared(lag, o, members[o].regions),
    ) by {
        assert(pair_ok(
            pairs,
            id,
            o,
            compatible(members[id].class, members[o].class),
            lag_shared(resting(id, counted), o, members[o].regions),
        ));
    }
}

/// Once `region` is counted against every other body in it, it is counted.
proof fn lemma_region_gained(pairs: Map<PairId, Pair>, members: Map<BodyId, Member>, lag: Lag)
    requires
        pairs_lagged(pairs, members, lag),
        members_ok(members),
        lag.sign == 1,
        !lag.counted.contains(lag.region),
        forall|o: BodyId|
            members.contains_key(o) && o != lag.id && members[o].regions.contains(lag.region)
                ==> lag.done.contains(o),
    ensures
        pairs_lagged(pairs, members, resting(lag.id, lag.counted.insert(lag.region))),
{
    let after = resting(lag.id, lag.counted.insert(lag.region));
    assert forall|o: BodyId| members.contains_key(o) && o != after.id implies #[trigger] pair_ok(
        pairs,
        after.id,
        o,
        compatible(members[after.id].class, members[o].class),
        lag_shared(after, o, members[o].regions),
    ) by {
        assert(pair_ok(
            pairs,
            lag.id,
            o,
            compatible(members[lag.id].class, members[o].class),
            lag_shared(lag, o, members[o].regions),
        ));
        let regions = members[o].regions;
        vstd::set_lib::lemma_len_intersect(regions, lag.counted);
        assert(lag.counted.intersect(regions) =~= regions.intersect(lag.counted));
        if regions.contains(lag.region) {
            assert(after.counted.intersect(regions) =~= lag.counted.intersect(regions).insert(
                lag.region,
            ));
        } else {
            assert(after.counted.intersect(regions) =~= lag.counted.intersect(regions));
        }
    }
}

/// Once `region` is no longer counted against any other body in it, it is
/// not counted.
proof fn lemma_region_lost(pairs: Map<PairId, Pair>, members: Map<BodyId, Member>, lag: Lag)
    requires
        pairs_lagged(pairs, members, lag),
        members_ok(members),
        lag.sign == -1,
        lag.counted.contains(lag.region),
        forall|o: BodyId|
            members.contains_key(o) && o != lag.id && members[o].regions.contains(lag.region)
                ==> lag.done.contains(o),
    ensures
        pairs_lagged(pairs, members, resting(lag.id, lag.counted.remove(lag.region))),
{
    let after = resting(lag.id, lag.counted.remove(lag.region));
    assert forall|o: BodyId| members.contains_key(o) && o != after.id implies #[trigger] pair_ok(
        pairs,
        after.id,
        o,
        compatible(members[after.id].class, members[o].class),
        lag_shared(after, o, members[o].regions),
    ) by {
        assert(pair_ok(
            pairs,
            lag.id,
            o,
            compatible(members[lag.id].class, members[o].class),
            lag_shared(lag, o, members[o].regions),
        ));
        let regions = members[o].regions;
        vstd::set_lib::lemma_len_intersect(regions, lag.counted);
        assert(lag.counted.intersect(regions) =~= regions.intersect(lag.counted));
        if regions.contains(lag.region) {
            assert(after.counted.intersect(regions) =~= lag.counted.intersect(regions).remove(
                lag.region,
            ));
        } else {
            assert(after.counted.intersect(regions) =~= lag.counted.intersect(regions));
        }
    }
}

/// Counts `lag.region` for the pair of `id` and `other`: the pair is made
/// with a count of one, or its count grows by one.
fn pair_gain(
    pairs: &mut HashMap<PairId, Pair>,
    id: BodyId,
    other: BodyId,
    Ghost(members): Ghost<Map<BodyId, Member>>,
    Ghost(lag): Ghost<Lag>,
)
    requires
        pairs_sound(old(pairs)@, members),
        pairs_lagged(old(pairs)@, members, lag),
        members_ok(members),
        lag.id == id,
        lag.sign == 1,
        members.contains_key(other),
        other != id,
        members[other].regions.contains(lag.region),
        !lag.done.contains(other),
        !lag.counted.contains(lag.region),
        lag.counted.len() < 4,
        compatible(members[id].class, members[other].class),
    ensures
        pairs_sound(final(pairs)@, members),
        pairs_lagged(final(pairs)@, members, Lag { done: lag.done.insert(other), ..lag }),
{
    broadcast use vstd::std_specs::hash::group_hash_axioms;

    let ghost before = pairs@;
    let ghost regions = members[other].regions;
    let ghost after_lag = Lag { done: lag.done.insert(other), ..lag };
    let key = get_pair_id(id, other);
    proof {
        assert(pairs_lagged(before, members, lag));
        assert(members.contains_key(other) && other != lag.id);
        assert(pair_ok(
            before,
            lag.id,
            other,
            compatible(members[lag.id].class, members[other].class),
            lag_shared(lag, other, members[other].regions),
        ));
        vstd::set_lib::lemma_len_intersect(lag.counted, regions);
    }
    match pairs.get(&key) {
        Some(pair) => {
            let grown = Pair { id1: pair.id1, id2: pair.id2, count: pair.count + 1 };
            pairs.insert(key, grown);
        },
        None => {
            pairs.insert(key, Pair { id1: id, id2: other, count: 1 });
        },
    }
    proof {
        assert forall|a: BodyId, b: BodyId|
            members.contains_key(a) && members.contains_key(b) && a != b && !((a == id && b
                == other) || (a == other && b == id)) implies pair_id(a, b) != key by {
            if pair_id(a, b) == key {
                lemma_pair_id_injective(a, b, id, other);
            }
        }
        assert forall|a: BodyId, b: BodyId|
            members.contains_key(a) && members.contains_key(b) && a != b && a != after_lag.id && b
                != after_lag.id implies #[trigger] pair_ok(
            pairs@,
            a,
            b,
            compatible(members[a].class, members[b].class),
            members[a].regions.intersect(members[b].regions).len() as int,
        ) by {
            assert(pair_ok(
                before,
                a,
                b,
                compatible(members[a].class, members[b].class),
                members[a].regions.intersect(members[b].regions).len() as int,
            ));
        }
        assert forall|o: BodyId|
            members.contains_key(o) && o != after_lag.id implies #[trigger] pair_ok(
            pairs@,
            after_lag.id,
            o,
            compatible(members[after_lag.id].class, members[o].class),
            lag_shared(after_lag, o, members[o].regions),
        ) by {
            assert(pair_ok(
                before,
                id,
                o,
                compatible(members[id].class, members[o].class),
                lag_shared(lag, o, members[o].regions),
            ));
            if o != other {
                assert(pair_id(id, o) != key);
            }
        }
    }
}

/// Takes `lag.region` out of the count of the pair of `id` and `other`, if
/// the pair is held: its count shrinks by one, and a pair without a count
/// is dropped.
fn pair_loss(
    pairs: &mut HashMap<PairId, Pair>,
    id: BodyId,
    other: BodyId,
    Ghost(members): Ghost<Map<BodyId, Member>>,
    Ghost(lag): Ghost<Lag>,
)
    requires
        pairs_sound(old(pairs)@, members),
        pairs_lagged(old(pairs)@, members, lag),
        members_ok(members),
        lag.id == id,
        lag.sign == -1,
        members.contains_key(other),
        other != id,
        members[other].regions.contains(lag.region),
        !lag.done.contains(other),
        lag.counted.contains(lag.region),
    ensures
        pairs_sound(final(pairs)@, members),
        pairs_lagged(final(pairs)@, members, Lag { done: lag.done.insert(other), ..lag }),
{
    broadcast use vstd::std_specs::hash::group_hash_axioms;

    let ghost before = pairs@;
    let ghost regions = members[other].regions;
    let ghost after_lag = Lag { done: lag.done.insert(other), ..lag };
    let key = get_pair_id(id, other);
    proof {
        assert(pair_ok(
            before,
            id,
            other,
            compatible(members[id].class, members[other].class),
            lag_shared(lag, other, regions),
        ));
        vstd::set_lib::lemma_len_intersect(regions, lag.counted);
        assert(lag.counted.intersect(regions) =~= regions.intersect(lag.counted));
        assert(lag.counted.intersect(regions).contains(lag.region));
        assert(lag.counted.intersect(regions).len() > 0) by {
            if lag.counted.intersect(regions).len() == 0 {
                assert(lag.counted.intersect(regions) =~= Set::empty());
            }
        }
    }
    match pairs.get(&key) {
        None => {},
        Some(pair) => {
            if pair.count == 1 {
                pairs.remove(&key);
            } else {
                let shrunk = Pair { id1: pair.id1, id2: pair.id2, count: pair.count - 1 };
                pairs.insert(key, shrunk);
            }
        },
    }
    proof {
        assert forall|a: BodyId, b: BodyId|
            members.contains_key(a) && members.contains_key(b) && a != b && !((a == id && b
                == other) || (a == other && b == id)) implies pair_id(a, b) != key by {
            if pair_id(a, b) == key {
                lemma_pair_id_injective(a, b, id, other);
            }
        }
        assert forall|a: BodyId, b: BodyId|
            members.contains_key(a) && members.contains_key(b) && a != b && a != after_lag.id && b
                != after_lag.id implies #[trigger] pair_ok(
            pairs@,
            a,
            b,
            compatible(members[a].class, members[b].class),
            members[a].regions.intersect(members[b].regions).len() as int,
        ) by {
            assert(pair_ok(
                before,
                a,
                b,
                compatible(members[a].class, members[b].class),
                members[a].regions.intersect(members[b].regions).len() as int,
            ));
        }
        assert forall|o: BodyId|
            members.contains_key(o) && o != after_lag.id implies #[trigger] pair_ok(
            pairs@,
            after_lag.id,
            o,
            compatible(members[after_lag.id].class, members[o].class),
            lag_shared(after_lag, o, members[o].regions),
        ) by {
            assert(pair_ok(
                before,
                id,
                o,
                compatible(members[id].class, members[o].class),
                lag_shared(lag, o, members[o].regions),
            ));
            if o != other {
                assert(pair_id(id, o) != key);
            }
        }
    }
}

/// The broadphase: the world cut into regions, each with the bucket of
/// the bodies that touch it, and the pairs of bodies that share a region
/// and whose classes may collide.
pub struct Grid {
    pairs: HashMap<PairId, Pair>,
    hash: HashMap<RegionId, HashSet<BodyId>>,
    members: Ghost<Map<BodyId, Member>>,
}

/// The sets have at most four elements and hold no unused slot.
proof fn lemma_slots(regions: Seq<RegionId>, count: int)
    requires
        regions.len() == 4,
    ensures
        slots_upto(regions, count).finite(),
        slots_upto(regions, count).len() <= 4,
        !slots_upto(regions, count).contains(0),
        slots_upto(regions, 0) == Set::<RegionId>::empty(),
{
    let all = Set::<RegionId>::empty().insert(regions[0]).insert(regions[1]).insert(
        regions[2],
    ).insert(regions[3]);
    assert(slots_upto(regions, count).subset_of(all));
    vstd::set_lib::lemma_len_subset(slots_upto(regions, count), all);
    assert(slots_upto(regions, 0) =~= Set::<RegionId>::empty());
}

/// The first `count` slots name at most `count` regions.
proof fn lemma_slots_len(regions: Seq<RegionId>, count: int)
    requires
        regions.len() == 4,
        0 <= count <= 4,
    ensures
        slots_upto(regions, count).finite(),
        slots_upto(regions, count).len() <= count,
{
    let none = Set::<RegionId>::empty();
    let one = none.insert(regions[0]);
    let two = one.insert(regions[1]);
    let three = two.insert(regions[2]);
    let four = three.insert(regions[3]);
    let all = if count == 0 {
        none
    } else if count == 1 {
        one
    } else if count == 2 {
        two
    } else if count == 3 {
        three
    } else {
        four
    };
    assert(slots_upto(regions, count).subset_of(all));
    vstd::set_lib::lemma_len_subset(slots_upto(regions, count), all);
}

/// Every registered body has its record, with its class.
spec fn classes_known(members: Map<BodyId, Member>, rects: Map<BodyId, Rect>) -> bool {
    forall|id: BodyId| #[trigger]
        members.contains_key(id) ==> rects.contains_key(id) && rects[id].id == id
            && rects[id].class == members[id].class
}

/// Whether `region` stands in one of the four slots.
fn holds_region(regions: &RegionsIds, region: RegionId) -> (found: bool)
    ensures
        found == (regions@[0] == region || regions@[1] == region || regions@[2] == region
            || regions@[3] == region),
{
    regions[0] == region || regions[1] == region || regions[2] == region || regions[3] == region
}

/// Writes the regions and the mark of a changed box into the record of
/// `id`.
fn store_regions(rects: &mut Rects, id: BodyId, regions: RegionsIds, is_updated: bool)
    requires
        old(rects)@.contains_key(id),
    ensures
        final(rects)@ == old(rects)@.insert(
            id,
            Rect { regions, is_updated, ..old(rects)@[id] },
        ),
{
    broadcast use vstd::std_specs::hash::group_hash_axioms;

    match rects.entry(id) {
        Entry::Occupied(mut entry) => {
            let rect = entry.get_mut();
            rect.regions = regions;
            rect.is_updated = is_updated;
        },
        Entry::Vacant(_vacant) => {
            assert(false);
        },
    }
}

fn same_regions(a: &RegionsIds, b: &RegionsIds) -> (same: bool)
    ensures
        same == (a@ == b@),
{
    let same = a[0] == b[0] && a[1] == b[1] && a[2] == b[2] && a[3] == b[3];
    proof {
        if same {
            assert(a@ =~= b@);
        }
    }
    same
}

impl Grid {
    /// The registered bodies, each with its class and its regions.
    pub closed spec fn members(&self) -> Map<BodyId, Member> {
        self.members@
    }

    /// The pairs held, by key.
    pub closed spec fn pair_map(&self) -> Map<PairId, Pair> {
        self.pairs@
    }

    /// The bodies in the bucket of each region that has one.
    pub closed spec fn buckets(&self) -> Map<RegionId, Set<BodyId>> {
        Map::new(|r: RegionId| self.hash@.contains_key(r), |r: RegionId| self.hash@[r]@)
    }

    /// Buckets and pairs are those of the registered bodies.
    pub open spec fn wf(&self) -> bool {
        &&& members_ok(self.members())
        &&& buckets_match(self.buckets(), self.members())
        &&& pairs_sound(self.pair_map(), self.members())
        &&& pairs_match(self.pair_map(), self.members())
    }

    /// The records of the registered bodies name the regions in which the
    /// grid holds them.
    pub open spec fn synced(&self, rects: Map<BodyId, Rect>) -> bool {
        forall|id: BodyId| #[trigger]
            self.members().contains_key(id) ==> rects.contains_key(id) && rects[id].id == id
                && rects[id].class == self.members()[id].class && regions_wf(rects[id].regions@)
                && region_set(rects[id].regions@) == self.members()[id].regions
    }

    /// All is in order but that of the regions of `id` the pairs reflect
    /// `counted`.
    spec fn resting_on(&self, id: BodyId, counted: Set<RegionId>) -> bool {
        &&& members_ok(self.members@)
        &&& buckets_match(self.buckets(), self.members@)
        &&& pairs_sound(self.pairs@, self.members@)
        &&& pairs_lagged(self.pairs@, self.members@, resting(id, counted))
    }

    /// A grid without bodies.
    pub fn new() -> (grid: Grid)
        ensures
            grid.wf(),
            grid.members() == Map::<BodyId, Member>::empty(),
            grid.pair_map() == Map::<PairId, Pair>::empty(),
    {
        let grid = Grid { pairs: HashMap::new(), hash: HashMap::new(), members: Ghost(Map::empty()) };
        assert(grid.buckets() =~= Map::<RegionId, Set<BodyId>>::empty());
        grid
    }

    /// The pairs held.
    pub fn pairs(&self) -> (pairs: &HashMap<PairId, Pair>)
        ensures
            pairs@ == self.pair_map(),
    {
        &self.pairs
    }

    /// Puts `id` into the bucket of `region`.
    fn register(&mut self, region: RegionId, id: BodyId, Ghost(counted): Ghost<Set<RegionId>>)
        requires
            old(self).resting_on(id, counted),
            region != 0,
            !old(self).members@[id].regions.contains(region),
            old(self).members@[id].regions.len() < 4,
        ensures
            final(self).resting_on(id, counted),
            final(self).pairs@ == old(self).pairs@,
            final(self).members@ == old(self).members@.insert(
                id,
                Member {
                    class: old(self).members@[id].class,
                    regions: old(self).members@[id].regions.insert(region),
                },
            ),
            forall|r: RegionId|
                old(self).hash@.contains_key(r) ==> #[trigger] final(self).hash@.contains_key(r),
    {
        broadcast use vstd::std_specs::hash::group_hash_axioms;

        let ghost before = self.buckets();
        if !self.hash.contains_key(&region) {
            self.hash.insert(region, HashSet::new());
        }
        match self.hash.entry(region) {
            Entry::Occupied(mut bucket) => {
                bucket.get_mut().insert(id);
            },
            Entry::Vacant(_vacant) => {
                assert(false);
            },
        }
        let ghost old_members = self.members@;
        proof {
            self.members@ = old_members.insert(
                id,
                Member {
                    class: old_members[id].class,
                    regions: old_members[id].regions.insert(region),
                },
            );
            let members = self.members@;
            assert forall|r: RegionId, x: BodyId|
                #![trigger self.buckets()[r].contains(x)]
                #![trigger members[x].regions.contains(r)]
                (self.buckets().contains_key(r) && self.buckets()[r].contains(x)) <==> (
                members.contains_key(x) && members[x].regions.contains(r)) by {
                assert((before.contains_key(r) && before[r].contains(x)) <==> (
                old_members.contains_key(x) && old_members[x].regions.contains(r)));
            }
            assert forall|a: BodyId, b: BodyId|
                members.contains_key(a) && members.contains_key(b) && a != b && a != id && b != id
                    implies #[trigger] pair_ok(
                self.pairs@,
                a,
                b,
                compatible(members[a].class, members[b].class),
                members[a].regions.intersect(members[b].regions).len() as int,
            ) by {
                assert(pair_ok(
                    self.pairs@,
                    a,
                    b,
                    compatible(old_members[a].class, old_members[b].class),
                    old_members[a].regions.intersect(old_members[b].regions).len() as int,
                ));
            }
            assert forall|o: BodyId| members.contains_key(o) && o != id implies #[trigger] pair_ok(
                self.pairs@,
                id,
                o,
                compatible(members[id].class, members[o].class),
                lag_shared(resting(id, counted), o, members[o].regions),
            ) by {
                assert(pair_ok(
                    self.pairs@,
                    id,
                    o,
                    compatible(old_members[id].class, old_members[o].class),
                    lag_shared(resting(id, counted), o, old_members[o].regions),
                ));
            }
        }
    }

    /// Takes `id` out of the bucket of `region`.
    fn deregister(&mut self, region: RegionId, id: BodyId, Ghost(counted): Ghost<Set<RegionId>>)
        requires
            old(self).resting_on(id, counted),
            old(self).members@[id].regions.contains(region),
        ensures
            final(self).resting_on(id, counted),
            final(self).pairs@ == old(self).pairs@,
            final(self).members@ == old(self).members@.insert(
                id,
                Member {
                    class: old(self).members@[id].class,
                    regions: old(self).members@[id].regions.remove(region),
                },
            ),
            final(self).hash@.contains_key(region),
            forall|r: RegionId|
                old(self).hash@.contains_key(r) ==> #[trigger] final(self).hash@.contains_key(r),
    {
        broadcast use vstd::std_specs::hash::group_hash_axioms;

        let ghost before = self.buckets();
        proof {
            assert(before.contains_key(region) && before[region].contains(id));
        }
        match self.hash.entry(region) {
            Entry::Occupied(mut bucket) => {
                bucket.get_mut().remove(&id);
            },
            Entry::Vacant(_vacant) => {
                assert(false);
            },
        }
        let ghost old_members = self.members@;
        proof {
            self.members@ = old_members.insert(
                id,
                Member {
                    class: old_members[id].class,
                    regions: old_members[id].regions.remove(region),
                },
            );
            let members = self.members@;
            assert forall|r: RegionId, x: BodyId|
                #![trigger self.buckets()[r].contains(x)]
                #![trigger members[x].regions.contains(r)]
                (self.buckets().contains_key(r) && self.buckets()[r].contains(x)) <==> (
                members.contains_key(x) && members[x].regions.contains(r)) by {
                assert((before.contains_key(r) && before[r].contains(x)) <==> (
                old_members.contains_key(x) && old_members[x].regions.contains(r)));
            }
            assert forall|a: BodyId, b: BodyId|
                members.contains_key(a) && members.contains_key(b) && a != b && a != id && b != id
                    implies #[trigger] pair_ok(
                self.pairs@,
                a,
                b,
                compatible(members[a].class, members[b].class),
                members[a].regions.intersect(members[b].regions).len() as int,
            ) by {
                assert(pair_ok(
                    self.pairs@,
                    a,
                    b,
                    compatible(old_members[a].class, old_members[b].class),
                    old_members[a].regions.intersect(old_members[b].regions).len() as int,
                ));
            }
            assert forall|o: BodyId| members.contains_key(o) && o != id implies #[trigger] pair_ok(
                self.pairs@,
                id,
                o,
                compatible(members[id].class, members[o].class),
                lag_shared(resting(id, counted), o, members[o].regions),
            ) by {
                assert(pair_ok(
                    self.pairs@,
                    id,
                    o,
                    compatible(old_members[id].class, old_members[o].class),
                    lag_shared(resting(id, counted), o, old_members[o].regions),
                ));
            }
        }
    }

    /// Counts `region`, in whose bucket `id` is, for the pairs of `id`
    /// with the other bodies of the bucket.
    fn gain_region(
        &mut self,
        region: RegionId,
        id: BodyId,
        rects: &Rects,
        Ghost(counted): Ghost<Set<RegionId>>,
    )
        requires
            old(self).resting_on(id, counted),
            classes_known(old(self).members@, rects@),
            old(self).members@[id].regions.contains(region),
            !counted.contains(region),
            counted.len() < 4,
        ensures
            final(self).resting_on(id, counted.insert(region)),
            final(self).members@ == old(self).members@,
            final(self).hash@ == old(self).hash@,
    {
        broadcast use vstd::std_specs::hash::group_hash_axioms;

        let ghost members = self.members@;
        let ghost buckets = self.buckets();
        proof {
            assert(buckets.contains_key(region) && buckets[region].contains(id));
        }
        let rect = rects.get(&id).unwrap();
        let bucket = self.hash.get(&region).unwrap();
        let ghost full: Seq<BodyId> = bucket.iter().remaining().unref();
        let ghost done: Set<BodyId> = Set::empty();
        proof {
            lemma_lag_start(self.pairs@, members, id, counted, region, 1);
        }
        for other_id in it: bucket.iter()
            invariant
                it.seq().unref() == full,
                full.to_set() == bucket@,
                full.no_duplicates(),
                bucket@ == buckets[region],
                buckets.contains_key(region),
                buckets_match(buckets, members),
                members_ok(members),
                classes_known(members, rects@),
                self.members@ == members,
                self.hash@ == old(self).hash@,
                members.contains_key(id),
                rect.id == id,
                rect.class == members[id].class,
                !counted.contains(region),
                counted.len() < 4,
                pairs_sound(self.pairs@, members),
                pairs_lagged(
                    self.pairs@,
                    members,
                    Lag { id, counted, region, done, sign: 1 },
                ),
                forall|o: BodyId|
                    done.contains(o) <==> (o != id && exists|j: int|
                        0 <= j < it.index() && #[trigger] full[j] == o),
        {
            let ghost lag = Lag { id, counted, region, done, sign: 1 };
            let ghost other = *other_id;
            proof {
                assert(full[it.index()] == other);
                assert(full.to_set().contains(other));
                assert(buckets[region].contains(other));
                assert(members.contains_key(other) && members[other].regions.contains(region));
                if done.contains(other) {
                    let j = choose|j: int| 0 <= j < it.index() && #[trigger] full[j] == other;
                    assert(false);
                }
            }
            if rect.id != *other_id {
                let other_rect = rects.get(other_id).unwrap();
                if can_collide(&rect.class, &other_rect.class) {
                    pair_gain(
                        &mut self.pairs,
                        rect.id,
                        other_rect.id,
                        Ghost(members),
                        Ghost(lag),
                    );
                } else {
                    proof {
                        let after = Lag { done: done.insert(other), ..lag };
                        assert forall|o: BodyId|
                            members.contains_key(o) && o != id implies #[trigger] pair_ok(
                            self.pairs@,
                            id,
                            o,
                            compatible(members[id].class, members[o].class),
                            lag_shared(after, o, members[o].regions),
                        ) by {
                            assert(pair_ok(
                                self.pairs@,
                                id,
                                o,
                                compatible(members[id].class, members[o].class),
                                lag_shared(lag, o, members[o].regions),
                            ));
                        }
                    }
                }
                proof {
                    done = done.insert(other);
                }
            }
            proof {
                assert forall|o: BodyId|
                    done.contains(o) <==> (o != id && exists|j: int|
                        0 <= j < it.index() + 1 && #[trigger] full[j] == o) by {
                    if o != id && exists|j: int| 0 <= j < it.index() + 1 && #[trigger] full[j] == o {
                        let j = choose|j: int| 0 <= j < it.index() + 1 && #[trigger] full[j] == o;
                        if j < it.index() {
                        } else {
                            assert(o == other);
                        }
                    }
                    if done.contains(o) {
                        if o == other {
                            assert(full[it.index()] == o);
                        } else {
                            let j = choose|j: int| 0 <= j < it.index() && #[trigger] full[j] == o;
                            assert(0 <= j < it.index() + 1 && full[j] == o);
                        }
                    }
                }
            }
        }
        proof {
            let lag = Lag { id, counted, region, done, sign: 1 };
            assert forall|o: BodyId|
                members.contains_key(o) && o != lag.id && members[o].regions.contains(
                    lag.region,
                ) implies lag.done.contains(o) by {
                assert(buckets[region].contains(o));
                assert(full.to_set().contains(o));
                let j = choose|j: int| 0 <= j < full.len() && full[j] == o;
                assert(full[j] == o);
            }
            lemma_region_gained(self.pairs@, members, lag);
        }
    }

    /// Takes `region`, whose bucket `id` has left, out of the count of the
    /// pairs of `id` with the bodies of the bucket.
    fn lose_region(&mut self, region: RegionId, id: BodyId, Ghost(counted): Ghost<Set<RegionId>>)
        requires
            old(self).resting_on(id, counted),
            old(self).hash@.contains_key(region),
            !old(self).members@[id].regions.contains(region),
            counted.contains(region),
        ensures
            final(self).resting_on(id, counted.remove(region)),
            final(self).members@ == old(self).members@,
            final(self).hash@ == old(self).hash@,
    {
        broadcast use vstd::std_specs::hash::group_hash_axioms;

        let ghost members = self.members@;
        let ghost buckets = self.buckets();
        proof {
            assert(buckets.contains_key(region));
        }
        let bucket = self.hash.get(&region).unwrap();
        let ghost full: Seq<BodyId> = bucket.iter().remaining().unref();
        let ghost done: Set<BodyId> = Set::empty();
        proof {
            lemma_lag_start(self.pairs@, members, id, counted, region, -1);
        }
        for other_id in it: bucket.iter()
            invariant
                it.seq().unref() == full,
                full.to_set() == bucket@,
                full.no_duplicates(),
                bucket@ == buckets[region],
                buckets.contains_key(region),
                buckets_match(buckets, members),
                members_ok(members),
                self.members@ == members,
                self.hash@ == old(self).hash@,
                members.contains_key(id),
                !members[id].regions.contains(region),
                counted.contains(region),
                pairs_sound(self.pairs@, members),
                pairs_lagged(
                    self.pairs@,
                    members,
                    Lag { id, counted, region, done, sign: -1 },
                ),
                forall|o: BodyId|
                    done.contains(o) <==> (exists|j: int|
                        0 <= j < it.index() && #[trigger] full[j] == o),
        {
            let ghost lag = Lag { id, counted, region, done, sign: -1 };
            let ghost other = *other_id;
            proof {
                assert(full[it.index()] == other);
                assert(full.to_set().contains(other));
                assert(buckets[region].contains(other));
                assert(members.contains_key(other) && members[other].regions.contains(region));
                assert(other != id);
                if done.contains(other) {
                    let j = choose|j: int| 0 <= j < it.index() && #[trigger] full[j] == other;
                    assert(false);
                }
            }
            pair_loss(&mut self.pairs, id, *other_id, Ghost(members), Ghost(lag));
            proof {
                done = done.insert(other);
                assert forall|o: BodyId|
                    done.contains(o) <==> (exists|j: int|
                        0 <= j < it.index() + 1 && #[trigger] full[j] == o) by {
                    if exists|j: int| 0 <= j < it.index() + 1 && #[trigger] full[j] == o {
                        let j = choose|j: int| 0 <= j < it.index() + 1 && #[trigger] full[j] == o;
                        if j < it.index() {
                        } else {
                            assert(o == other);
                        }
                    }
                    if done.contains(o) {
                        if o == other {
                            assert(full[it.index()] == o);
                        } else {
                            let j = choose|j: int| 0 <= j < it.index() && #[trigger] full[j] == o;
                            assert(0 <= j < it.index() + 1 && full[j] == o);
                        }
                    }
                }
            }
        }
        proof {
            let lag = Lag { id, counted, region, done, sign: -1 };
            assert forall|o: BodyId|
                members.contains_key(o) && o != lag.id && members[o].regions.contains(
                    lag.region,
                ) implies lag.done.contains(o) by {
                assert(buckets[region].contains(o));
                assert(full.to_set().contains(o));
                let j = choose|j: int| 0 <= j < full.len() && full[j] == o;
                assert(full[j] == o);
            }
            lemma_region_lost(self.pairs@, members, lag);
        }
    }

    /// Counts the regions in `regions`, in whose buckets `id` is, for the
    /// pairs of `id`: a pair is made where there was none, and grows by one
    /// for each region shared.
    fn add_to_pairs(
        &mut self,
        regions: &RegionsIds,
        id: BodyId,
        rects: &Rects,
        Ghost(counted): Ghost<Set<RegionId>>,
    )
        requires
            old(self).resting_on(id, counted),
            classes_known(old(self).members@, rects@),
            regions_wf(regions@),
            region_set(regions@).subset_of(old(self).members@[id].regions),
            region_set(regions@).disjoint(counted),
            counted.subset_of(old(self).members@[id].regions),
        ensures
            final(self).resting_on(id, counted.union(region_set(regions@))),
            final(self).members@ == old(self).members@,
            final(self).hash@ == old(self).hash@,
    {
        let ghost own = self.members@[id].regions;
        let mut i: usize = 0;
        proof {
            assert(counted.union(slots_upto(regions@, 0)) =~= counted);
        }
        while i < 4 && regions[i] != EMPTY_REGION
            invariant
                0 <= i <= 4,
                regions_wf(regions@),
                self.resting_on(id, counted.union(slots_upto(regions@, i as int))),
                classes_known(self.members@, rects@),
                self.members@ == old(self).members@,
                self.hash@ == old(self).hash@,
                own == self.members@[id].regions,
                region_set(regions@).subset_of(own),
                region_set(regions@).disjoint(counted),
                counted.subset_of(own),
            decreases 4 - i,
        {
            let region = regions[i];
            let ghost now = counted.union(slots_upto(regions@, i as int));
            proof {
                assert(region_set(regions@).contains(region));
                assert(!now.contains(region));
                assert(now.insert(region).subset_of(own));
                vstd::set_lib::lemma_len_subset(now.insert(region), own);
                assert(now.insert(region) =~= counted.union(slots_upto(regions@, i + 1)));
            }
            self.gain_region(region, id, rects, Ghost(now));
            i = i + 1;
        }
        proof {
            assert(slots_upto(regions@, i as int) =~= region_set(regions@));
        }
    }

    /// Takes the regions in `regions`, whose buckets `id` has left, out of
    /// the count of the pairs of `id`: a pair shrinks by one for each
    /// region, and is dropped with the last.
    fn remove_from_pairs(
        &mut self,
        regions: &RegionsIds,
        id: BodyId,
        Ghost(counted): Ghost<Set<RegionId>>,
    )
        requires
            old(self).resting_on(id, counted),
            regions_wf(regions@),
            region_set(regions@).subset_of(counted),
            region_set(regions@).disjoint(old(self).members@[id].regions),
            forall|r: RegionId|
                region_set(regions@).contains(r) ==> #[trigger] old(self).hash@.contains_key(r),
        ensures
            final(self).resting_on(id, counted.difference(region_set(regions@))),
            final(self).members@ == old(self).members@,
            final(self).hash@ == old(self).hash@,
    {
        let mut i: usize = 0;
        proof {
            assert(counted.difference(slots_upto(regions@, 0)) =~= counted);
        }
        while i < 4 && regions[i] != EMPTY_REGION
            invariant
                0 <= i <= 4,
                regions_wf(regions@),
                self.resting_on(id, counted.difference(slots_upto(regions@, i as int))),
                self.members@ == old(self).members@,
                self.hash@ == old(self).hash@,
                region_set(regions@).subset_of(counted),
                region_set(regions@).disjoint(self.members@[id].regions),
                forall|r: RegionId|
                    region_set(regions@).contains(r) ==> #[trigger] self.hash@.contains_key(r),
            decreases 4 - i,
        {
            let region = regions[i];
            let ghost now = counted.difference(slots_upto(regions@, i as int));
            proof {
                assert(region_set(regions@).contains(region));
                assert(now.contains(region));
                assert(now.remove(region) =~= counted.difference(slots_upto(regions@, i + 1)));
            }
            self.lose_region(region, id, Ghost(now));
            i = i + 1;
        }
        proof {
            assert(slots_upto(regions@, i as int) =~= region_set(regions@));
        }
    }

    /// Registers the body `id`, which the grid does not hold yet: its
    /// regions are computed from its box and written into its record, it
    /// enters their buckets, and its pairs with the bodies found there are
    /// made or grow.
    pub fn add(&mut self, id: BodyId, rects: &mut Rects)
        requires
            old(self).wf(),
            old(self).synced(old(rects)@),
            old(rects)@.contains_key(id),
            old(rects)@[id].id == id,
            !old(self).members().contains_key(id),
            id <= MAX_BODY_ID,
        ensures
            final(self).wf(),
            final(self).synced(final(rects)@),
            final(self).members() == old(self).members().insert(
                id,
                Member {
                    class: old(rects)@[id].class,
                    regions: region_set(regions_for(old(rects)@[id].bounds)),
                },
            ),
            final(rects)@.dom() == old(rects)@.dom(),
            forall|other: BodyId|
                other != id && old(rects)@.contains_key(other) ==> #[trigger] final(rects)@[other]
                    == old(rects)@[other],
            final(rects)@[id].same_body(old(rects)@[id]),
            final(rects)@[id].is_updated == old(rects)@[id].is_updated,
            final(rects)@[id].regions@ == regions_for(old(rects)@[id].bounds),
    {
        broadcast use vstd::std_specs::hash::group_hash_axioms;

        let ghost base = self.members@;
        let rect = rects.get(&id).unwrap();
        let class = rect.class;
        let is_updated = rect.is_updated;
        let regions = get_regions_by_bounds(&rect.bounds);
        store_regions(rects, id, regions, is_updated);
        proof {
            lemma_regions_for(old(rects)@[id].bounds);
            lemma_slots(regions@, 0);
            assert(rects@.dom() =~= old(rects)@.dom());
            self.members@ = base.insert(id, Member { class, regions: Set::empty() });
            let members = self.members@;
            assert forall|o: BodyId| members.contains_key(o) && o != id implies #[trigger] pair_ok(
                self.pairs@,
                id,
                o,
                compatible(members[id].class, members[o].class),
                lag_shared(resting(id, Set::empty()), o, members[o].regions),
            ) by {
                assert(Set::<RegionId>::empty().intersect(members[o].regions) =~= Set::empty());
                if self.pairs@.contains_key(pair_id(id, o)) {
                    let found = self.pairs@[pair_id(id, o)];
                    lemma_pair_id_injective(id, o, found.id1, found.id2);
                }
            }
            assert forall|a: BodyId, b: BodyId|
                members.contains_key(a) && members.contains_key(b) && a != b && a != id && b != id
                    implies #[trigger] pair_ok(
                self.pairs@,
                a,
                b,
                compatible(members[a].class, members[b].class),
                members[a].regions.intersect(members[b].regions).len() as int,
            ) by {
                assert(pair_ok(
                    self.pairs@,
                    a,
                    b,
                    compatible(base[a].class, base[b].class),
                    base[a].regions.intersect(base[b].regions).len() as int,
                ));
            }
            assert(self.resting_on(id, Set::empty()));
        }
        let mut i: usize = 0;
        while i < 4 && regions[i] != EMPTY_REGION
            invariant
                0 <= i <= 4,
                regions_wf(regions@),
                self.resting_on(id, Set::empty()),
                self.members@ == base.insert(
                    id,
                    Member { class, regions: slots_upto(regions@, i as int) },
                ),
            decreases 4 - i,
        {
            proof {
                lemma_slots_len(regions@, i as int);
                assert(slots_upto(regions@, i as int).insert(regions@[i as int]) =~= slots_upto(
                    regions@,
                    i + 1,
                ));
            }
            self.register(regions[i], id, Ghost(Set::empty()));
            i = i + 1;
            assert(self.members@ =~= base.insert(
                id,
                Member { class, regions: slots_upto(regions@, i as int) },
            ));
        }
        proof {
            assert(slots_upto(regions@, i as int) =~= region_set(regions@));
            assert(classes_known(self.members@, rects@));
        }
        self.add_to_pairs(&regions, id, rects, Ghost(Set::empty()));
        proof {
            assert(Set::<RegionId>::empty().union(region_set(regions@)) =~= region_set(regions@));
            lemma_lag_closed(self.pairs@, self.members@, id);
        }
    }

    /// Takes the body of the record out of the grid: it leaves the buckets
    /// of the regions that the record names, and its pairs are dropped.
    pub fn remove(&mut self, rect: &Rect)
        requires
            old(self).wf(),
            old(self).members().contains_key(rect.id),
            regions_wf(rect.regions@),
            region_set(rect.regions@) == old(self).members()[rect.id].regions,
        ensures
            final(self).wf(),
            final(self).members() == old(self).members().remove(rect.id),
    {
        broadcast use vstd::std_specs::hash::group_hash_axioms;

        let id = rect.id;
        let ghost base = self.members@;
        let ghost class = base[id].class;
        let ghost all = region_set(rect.regions@);
        proof {
            lemma_lag_closed(self.pairs@, self.members@, id);
            assert(all.difference(slots_upto(rect.regions@, 0)) =~= all);
            assert(base.insert(id, Member { class, regions: all }) =~= base);
            assert forall|r: RegionId| all.contains(r) implies #[trigger] self.hash@.contains_key(
                r,
            ) by {
                assert(self.buckets().contains_key(r) && self.buckets()[r].contains(id));
            }
        }
        let mut i: usize = 0;
        while i < 4 && rect.regions[i] != EMPTY_REGION
            invariant
                0 <= i <= 4,
                regions_wf(rect.regions@),
                id == rect.id,
                all == region_set(rect.regions@),
                self.resting_on(id, all),
                self.members@ == base.insert(
                    id,
                    Member { class, regions: all.difference(slots_upto(rect.regions@, i as int)) },
                ),
                forall|r: RegionId| all.contains(r) ==> #[trigger] self.hash@.contains_key(r),
            decreases 4 - i,
        {
            proof {
                assert(all.contains(rect.regions@[i as int]));
                assert(all.difference(slots_upto(rect.regions@, i as int)).remove(
                    rect.regions@[i as int],
                ) =~= all.difference(slots_upto(rect.regions@, i + 1)));
            }
            self.deregister(rect.regions[i], id, Ghost(all));
            i = i + 1;
            assert(self.members@ =~= base.insert(
                id,
                Member { class, regions: all.difference(slots_upto(rect.regions@, i as int)) },
            ));
        }
        proof {
            assert(slots_upto(rect.regions@, i as int) =~= all);
            assert(all.difference(all) =~= Set::<RegionId>::empty());
        }
        self.remove_from_pairs(&rect.regions, id, Ghost(all));
        proof {
            let members = self.members@;
            let rest = members.remove(id);
            assert(rest =~= base.remove(id));
            assert forall|o: BodyId| members.contains_key(o) && o != id implies !self.pairs@.contains_key(
                pair_id(id, o),
            ) by {
                assert(pair_ok(
                    self.pairs@,
                    id,
                    o,
                    compatible(members[id].class, members[o].class),
                    lag_shared(resting(id, Set::empty()), o, members[o].regions),
                ));
                assert(Set::<RegionId>::empty().intersect(members[o].regions) =~= Set::empty());
            }
            assert forall|key: PairId| #[trigger] self.pairs@.contains_key(key) implies rest.contains_key(
                self.pairs@[key].id1,
            ) && rest.contains_key(self.pairs@[key].id2) by {
                let found = self.pairs@[key];
                if found.id1 == id {
                    assert(!self.pairs@.contains_key(pair_id(id, found.id2)));
                }
                if found.id2 == id {
                    assert(!self.pairs@.contains_key(pair_id(id, found.id1)));
                }
            }
            assert forall|a: BodyId, b: BodyId|
                rest.contains_key(a) && rest.contains_key(b) && a != b implies #[trigger] pair_ok(
                self.pairs@,
                a,
                b,
                compatible(rest[a].class, rest[b].class),
                rest[a].regions.intersect(rest[b].regions).len() as int,
            ) by {
                assert(pair_ok(
                    self.pairs@,
                    a,
                    b,
                    compatible(members[a].class, members[b].class),
                    members[a].regions.intersect(members[b].regions).len() as int,
                ));
            }
            self.members@ = rest;
        }
    }

    /// Takes `id` out of the buckets of the regions of `old_regions` that
    /// `new_regions` does not name, and returns those regions with their
    /// number.
    fn leave_regions(&mut self, old_regions: &RegionsIds, new_regions: &RegionsIds, id: BodyId) -> (left:
        (RegionsIds, usize))
        requires
            regions_wf(old_regions@),
            old(self).resting_on(id, region_set(old_regions@)),
            old(self).members@[id].regions == region_set(old_regions@),
        ensures
            final(self).resting_on(id, region_set(old_regions@)),
            final(self).pairs@ == old(self).pairs@,
            regions_wf(left.0@),
            region_set(left.0@) == region_set(old_regions@).difference(region_set(new_regions@)),
            left.1 == 0 ==> region_set(left.0@) == Set::<RegionId>::empty(),
            final(self).members@ == old(self).members@.insert(
                id,
                Member {
                    class: old(self).members@[id].class,
                    regions: region_set(old_regions@).intersect(region_set(new_regions@)),
                },
            ),
            forall|r: RegionId|
                region_set(old_regions@).contains(r) ==> #[trigger] final(self).hash@.contains_key(
                    r,
                ),
    {
        broadcast use vstd::std_specs::hash::group_hash_axioms;

        let ghost base = self.members@;
        let ghost class = base[id].class;
        let ghost all = region_set(old_regions@);
        let ghost gone = region_set(new_regions@);
        let mut regions_to_remove: RegionsIds = [0; 4];
        let mut regions_to_remove_count: usize = 0;
        let mut i: usize = 0;
        proof {
            assert(base.insert(id, Member { class, regions: all }) =~= base);
            assert(slots_upto(regions_to_remove@, 4) =~= Set::<RegionId>::empty());
            assert(all.difference(slots_upto(regions_to_remove@, 4)) =~= all);
            assert(slots_upto(old_regions@, 0).difference(gone) =~= Set::<RegionId>::empty());
            assert forall|r: RegionId| all.contains(r) implies #[trigger] self.hash@.contains_key(
                r,
            ) by {
                assert(self.buckets().contains_key(r) && self.buckets()[r].contains(id));
            }
        }
        while i < 4 && old_regions[i] != EMPTY_REGION
            invariant
                0 <= i <= 4,
                regions_to_remove_count <= i,
                regions_wf(old_regions@),
                all == region_set(old_regions@),
                gone == region_set(new_regions@),
                self.resting_on(id, all),
                self.pairs@ == old(self).pairs@,
                regions_to_remove@.len() == 4,
                forall|k: int|
                    regions_to_remove_count <= k < 4 ==> regions_to_remove@[k] == 0,
                forall|k: int|
                    0 <= k < regions_to_remove_count ==> regions_to_remove@[k] != 0,
                forall|k: int, l: int|
                    0 <= k < l < regions_to_remove_count ==> regions_to_remove@[k]
                        != regions_to_remove@[l],
                slots_upto(regions_to_remove@, 4) == slots_upto(
                    old_regions@,
                    i as int,
                ).difference(gone),
                self.members@ == base.insert(
                    id,
                    Member { class, regions: all.difference(slots_upto(regions_to_remove@, 4)) },
                ),
                forall|r: RegionId| all.contains(r) ==> #[trigger] self.hash@.contains_key(r),
            decreases 4 - i,
        {
            let region = old_regions[i];
            let ghost before = regions_to_remove@;
            if !holds_region(new_regions, region) {
                proof {
                    assert(all.contains(region));
                    assert(!slots_upto(before, 4).contains(region));
                }
                regions_to_remove[regions_to_remove_count] = region;
                regions_to_remove_count = regions_to_remove_count + 1;
                self.deregister(region, id, Ghost(all));
                proof {
                    assert(slots_upto(regions_to_remove@, 4) =~= slots_upto(before, 4).insert(
                        region,
                    ));
                    assert(slots_upto(regions_to_remove@, 4) =~= slots_upto(
                        old_regions@,
                        i + 1,
                    ).difference(gone));
                    assert(all.difference(slots_upto(before, 4)).remove(region) =~= all.difference(
                        slots_upto(regions_to_remove@, 4),
                    ));
                    assert(self.members@ =~= base.insert(
                        id,
                        Member {
                            class,
                            regions: all.difference(slots_upto(regions_to_remove@, 4)),
                        },
                    ));
                }
            } else {
                proof {
                    assert(gone.contains(region));
                    assert(slots_upto(regions_to_remove@, 4) =~= slots_upto(
                        old_regions@,
                        i + 1,
                    ).difference(gone));
                }
            }
            i = i + 1;
        }
        proof {
            assert(slots_upto(old_regions@, i as int) =~= all);
            assert(all.difference(all.difference(gone)) =~= all.intersect(gone));
            if regions_to_remove_count == 0 {
                assert(region_set(regions_to_remove@) =~= Set::<RegionId>::empty());
            }
        }
        (regions_to_remove, regions_to_remove_count)
    }

    /// Puts `id` into the buckets of the regions of `new_regions` that
    /// `old_regions` does not name, and returns those regions with their
    /// number.
    fn enter_regions(&mut self, old_regions: &RegionsIds, new_regions: &RegionsIds, id: BodyId, Ghost(counted): Ghost<Set<RegionId>>) -> (entered:
        (RegionsIds, usize))
        requires
            regions_wf(new_regions@),
            old(self).resting_on(id, counted),
            old(self).members@[id].regions == region_set(old_regions@).intersect(
                region_set(new_regions@),
            ),
        ensures
            final(self).resting_on(id, counted),
            final(self).pairs@ == old(self).pairs@,
            regions_wf(entered.0@),
            region_set(entered.0@) == region_set(new_regions@).difference(
                region_set(old_regions@),
            ),
            entered.1 == 0 ==> region_set(entered.0@) == Set::<RegionId>::empty(),
            final(self).members@ == old(self).members@.insert(
                id,
                Member { class: old(self).members@[id].class, regions: region_set(new_regions@) },
            ),
    {
        broadcast use vstd::std_specs::hash::group_hash_axioms;

        let ghost base = self.members@;
        let ghost class = base[id].class;
        let ghost all = region_set(new_regions@);
        let ghost had = region_set(old_regions@);
        let ghost kept = had.intersect(all);
        let mut regions_to_add: RegionsIds = [0; 4];
        let mut regions_to_add_count: usize = 0;
        let mut i: usize = 0;
        proof {
            lemma_slots(new_regions@, 4);
            assert(base.insert(id, Member { class, regions: kept }) =~= base);
            assert(slots_upto(regions_to_add@, 4) =~= Set::<RegionId>::empty());
            assert(kept.union(slots_upto(regions_to_add@, 4)) =~= kept);
            assert(slots_upto(new_regions@, 0).difference(had) =~= Set::<RegionId>::empty());
        }
        while i < 4 && new_regions[i] != EMPTY_REGION
            invariant
                0 <= i <= 4,
                regions_to_add_count <= i,
                regions_wf(new_regions@),
                all == region_set(new_regions@),
                had == region_set(old_regions@),
                kept == had.intersect(all),
                all.finite(),
                all.len() <= 4,
                self.resting_on(id, counted),
                self.pairs@ == old(self).pairs@,
                regions_to_add@.len() == 4,
                forall|k: int| regions_to_add_count <= k < 4 ==> regions_to_add@[k] == 0,
                forall|k: int| 0 <= k < regions_to_add_count ==> regions_to_add@[k] != 0,
                forall|k: int, l: int|
                    0 <= k < l < regions_to_add_count ==> regions_to_add@[k] != regions_to_add@[l],
                slots_upto(regions_to_add@, 4) == slots_upto(new_regions@, i as int).difference(
                    had,
                ),
                self.members@ == base.insert(
                    id,
                    Member { class, regions: kept.union(slots_upto(regions_to_add@, 4)) },
                ),
            decreases 4 - i,
        {
            let region = new_regions[i];
            let ghost before = regions_to_add@;
            if !holds_region(old_regions, region) {
                proof {
                    let own = kept.union(slots_upto(before, 4));
                    assert(all.contains(region));
                    assert(!own.contains(region));
                    assert(own.insert(region).subset_of(all));
                    vstd::set_lib::lemma_len_subset(own.insert(region), all);
                }
                regions_to_add[regions_to_add_count] = region;
                regions_to_add_count = regions_to_add_count + 1;
                self.register(region, id, Ghost(counted));
                proof {
                    assert(slots_upto(regions_to_add@, 4) =~= slots_upto(before, 4).insert(region));
                    assert(slots_upto(regions_to_add@, 4) =~= slots_upto(
                        new_regions@,
                        i + 1,
                    ).difference(had));
                    assert(kept.union(slots_upto(before, 4)).insert(region) =~= kept.union(
                        slots_upto(regions_to_add@, 4),
                    ));
                    assert(self.members@ =~= base.insert(
                        id,
                        Member { class, regions: kept.union(slots_upto(regions_to_add@, 4)) },
                    ));
                }
            } else {
                proof {
                    assert(had.contains(region));
                    assert(slots_upto(regions_to_add@, 4) =~= slots_upto(
                        new_regions@,
                        i + 1,
                    ).difference(had));
                }
            }
            i = i + 1;
        }
        proof {
            assert(slots_upto(new_regions@, i as int) =~= all);
            assert(kept.union(all.difference(had)) =~= all);
            if regions_to_add_count == 0 {
                assert(region_set(regions_to_add@) =~= Set::<RegionId>::empty());
            }
        }
        (regions_to_add, regions_to_add_count)
    }

    /// Brings the grid up to date with the box of `id`, if the box is
    /// marked as changed: the body leaves the buckets of the regions that
    /// it no longer touches and enters those of the regions that it now
    /// touches, and its pairs shrink and grow with the regions shared. The
    /// mark is cleared.
    pub fn update(&mut self, id: BodyId, rects: &mut Rects)
        requires
            old(self).wf(),
            old(self).synced(old(rects)@),
            old(self).members().contains_key(id),
        ensures
            final(self).wf(),
            final(self).synced(final(rects)@),
            final(self).members() == (if old(rects)@[id].is_updated {
                old(self).members().insert(
                    id,
                    Member {
                        class: old(rects)@[id].class,
                        regions: region_set(regions_for(old(rects)@[id].bounds)),
                    },
                )
            } else {
                old(self).members()
            }),
            final(rects)@.dom() == old(rects)@.dom(),
            forall|other: BodyId|
                other != id && old(rects)@.contains_key(other) ==> #[trigger] final(rects)@[other]
                    == old(rects)@[other],
            final(rects)@[id].same_body(old(rects)@[id]),
            !final(rects)@[id].is_updated,
            final(rects)@[id].regions@ == (if old(rects)@[id].is_updated {
                regions_for(old(rects)@[id].bounds)
            } else {
                old(rects)@[id].regions@
            }),
    {
        broadcast use vstd::std_specs::hash::group_hash_axioms;

        let ghost base = self.members@;
        let rect = rects.get(&id).unwrap();
        if !rect.is_updated {
            return ;
        }
        let new_regions = get_regions_by_bounds(&rect.bounds);
        let old_regions = rect.regions;
        proof {
            lemma_regions_for(rect.bounds);
            assert(rects@.insert(id, Rect { regions: new_regions, is_updated: false, ..rects@[id] }).dom()
                =~= rects@.dom());
        }
        if same_regions(&new_regions, &old_regions) {
            store_regions(rects, id, old_regions, false);
            proof {
                assert(base.insert(
                    id,
                    Member { class: base[id].class, regions: region_set(new_regions@) },
                ) =~= base);
            }
            return ;
        }
        store_regions(rects, id, new_regions, false);
        proof {
            lemma_lag_closed(self.pairs@, self.members@, id);
        }
        let ghost had = region_set(old_regions@);
        let ghost all = region_set(new_regions@);
        let (regions_to_remove, regions_to_remove_count) = self.leave_regions(
            &old_regions,
            &new_regions,
            id,
        );
        if regions_to_remove_count > 0 {
            proof {
                assert(region_set(regions_to_remove@).disjoint(self.members@[id].regions));
            }
            self.remove_from_pairs(&regions_to_remove, id, Ghost(had));
        }
        proof {
            assert(had.difference(region_set(regions_to_remove@)) =~= had.intersect(all));
            if regions_to_remove_count == 0 {
                assert(had =~= had.intersect(all));
            }
        }
        let (regions_to_add, regions_to_add_count) = self.enter_regions(
            &old_regions,
            &new_regions,
            id,
            Ghost(had.intersect(all)),
        );
        proof {
            assert(self.members@ =~= base.insert(
                id,
                Member { class: base[id].class, regions: all },
            ));
        }
        if regions_to_add_count > 0 {
            proof {
                assert(classes_known(self.members@, rects@));
            }
            self.add_to_pairs(&regions_to_add, id, rects, Ghost(had.intersect(all)));
        }
        proof {
            assert(had.intersect(all).union(region_set(regions_to_add@)) =~= all);
            if regions_to_add_count == 0 {
                assert(had.intersect(all) =~= all);
            }
            lemma_lag_closed(self.pairs@, self.members@, id);
        }
    }

    /// A pair is held for two registered bodies exactly if they share a
    /// region and their classes may collide, and it counts the regions that
    /// they share; so the pair goes when the last shared region goes.
    pub proof fn lemma_pair_iff_shared(&self, a: BodyId, b: BodyId)
        requires
            self.wf(),
            self.members().contains_key(a),
            self.members().contains_key(b),
            a != b,
        ensures
            self.pair_map().contains_key(pair_id(a, b)) <==> compatible(
                self.members()[a].class,
                self.members()[b].class,
            ) && exists|r: RegionId|
                self.members()[a].regions.contains(r) && self.members()[b].regions.contains(r),
            self.pair_map().contains_key(pair_id(a, b)) ==> self.pair_map()[pair_id(a, b)].count
                == self.members()[a].regions.intersect(self.members()[b].regions).len(),
    {
        let shared = self.members()[a].regions.intersect(self.members()[b].regions);
        assert(pair_ok(
            self.pair_map(),
            a,
            b,
            compatible(self.members()[a].class, self.members()[b].class),
            shared.len() as int,
        ));
        if shared.len() > 0 {
            let r = shared.choose();
            assert(shared.contains(r));
        }
        if exists|r: RegionId|
            self.members()[a].regions.contains(r) && self.members()[b].regions.contains(r) {
            let r = choose|r: RegionId|
                self.members()[a].regions.contains(r) && self.members()[b].regions.contains(r);
            assert(shared.contains(r));
            if shared.len() == 0 {
                vstd::set_lib::lemma_len_intersect(
                    self.members()[a].regions,
                    self.members()[b].regions,
                );
                assert(shared =~= Set::empty());
            }
        }
    }

    /// Every pair held is one of two different registered bodies, and
    /// counts at least one and at most four regions.
    pub proof fn lemma_pair_members(&self, key: PairId)
        requires
            self.wf(),
            self.pair_map().contains_key(key),
        ensures
            self.members().contains_key(self.pair_map()[key].id1),
            self.members().contains_key(self.pair_map()[key].id2),
            self.pair_map()[key].id1 != self.pair_map()[key].id2,
            key == pair_id(self.pair_map()[key].id1, self.pair_map()[key].id2),
            1 <= self.pair_map()[key].count <= 4,
    {
        let a = self.pair_map()[key].id1;
        let b = self.pair_map()[key].id2;
        assert(pair_ok(
            self.pair_map(),
            a,
            b,
            compatible(self.members()[a].class, self.members()[b].class),
            self.members()[a].regions.intersect(self.members()[b].regions).len() as int,
        ));
        vstd::set_lib::lemma_len_intersect(self.members()[a].regions, self.members()[b].regions);
    }
}

} // verus!
