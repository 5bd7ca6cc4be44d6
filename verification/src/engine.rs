use vstd::prelude::*;
use std::collections::HashMap;
use std::collections::hash_map::Entry;
use vstd::std_specs::iter::IteratorSpec;
use crate::body::{Bodies, BodiesIds, Body, BodyClass, BodyId};
use crate::body::player::{BodyPlayer, shifted};
use crate::cells::Cells;

verus! {

/// Edge length of one block, the unit of the cell store.
pub const BLOCK_SIZE: i32 = 128;

/// Half the edge length of a block.
pub const BLOCK_HALF_SIZE: i32 = 64;

/// Axis-aligned box given by its four edges.
#[derive(Copy, Clone, PartialEq, Eq, Structural, Debug)]
pub struct Bounds {
    pub min_x: i32,
    pub max_x: i32,
    pub min_y: i32,
    pub max_y: i32,
}

/// A plain pair of integers.
#[derive(Copy, Clone, PartialEq, Eq, Structural, Debug)]
pub struct Vector {
    pub x: i32,
    pub y: i32,
}

/// Horizontal intent of a player.
#[derive(Copy, Clone, PartialEq, Eq, Structural, Debug)]
pub enum Direction {
    Idle,
    Left,
    Right,
}

impl Default for Direction {
    fn default() -> (direction: Direction)
        ensures
            direction == Direction::Idle,
    {
        Direction::Idle
    }
}

impl Direction {
    /// Sign of the direction along x.
    pub open spec fn sign(self) -> int {
        match self {
            Direction::Idle => 0,
            Direction::Left => -1,
            Direction::Right => 1,
        }
    }
}

/// Kind of an event that a tick reports.
#[derive(Copy, Clone, PartialEq, Eq, Structural, Debug)]
pub enum EventClass {
    /// A body left the world.
    OutOfWorld,
    /// A body touches a sensor.
    Sensor,
    /// A player touches an item.
    Item,
}

/// Something that happened to `body_id` because of `trigger_id`.
#[derive(Copy, Clone, PartialEq, Eq, Structural, Debug)]
pub struct Event {
    pub class: EventClass,
    pub body_id: BodyId,
    pub trigger_id: BodyId,
}

/// New position of a body that moved during a tick.
#[derive(Copy, Clone, PartialEq, Eq, Structural, Debug)]
pub struct PositionUpdate {
    pub id: BodyId,
    pub x: i32,
    pub y: i32,
}

/// Identifier of a region of the broadphase grid; zero marks an unused slot.
pub type RegionId = i32;

/// The up to four regions that a body touches, unused slots last.
pub type RegionsIds = [RegionId; 4];

/// Collision record of a body.
#[derive(Copy, Clone, Debug)]
pub struct Rect {
    pub id: BodyId,
    pub class: BodyClass,
    pub bounds: Bounds,
    /// Regions in which the broadphase grid has registered the body.
    pub regions: RegionsIds,
    /// The box changed since the broadphase grid last looked at it.
    pub is_updated: bool,
}

/// The box of a body that stands at `(x, y)`: `x` is its horizontal centre,
/// `y` its lower edge.
pub open spec fn box_around(x: int, y: int, half_width: int, height: int) -> Bounds {
    Bounds {
        min_x: (x - half_width) as i32,
        max_x: (x + half_width) as i32,
        min_y: (y - height) as i32,
        max_y: y as i32,
    }
}

impl Rect {
    /// The two records differ at most in the regions and in the mark of a
    /// changed box.
    pub open spec fn same_body(self, other: Rect) -> bool {
        self.id == other.id && self.class == other.class && self.bounds == other.bounds
    }

    /// A record for a body at `(x, y)` that no grid has seen yet.
    pub fn new(id: u32, class: BodyClass, x: i32, y: i32, half_width: i32, height: i32) -> (rect:
        Rect)
        requires
            i32::MIN <= x - half_width <= i32::MAX,
            i32::MIN <= x + half_width <= i32::MAX,
            i32::MIN <= y - height <= i32::MAX,
        ensures
            rect.id == id,
            rect.class == class,
            rect.bounds == box_around(x as int, y as int, half_width as int, height as int),
            rect.regions@ == seq![0i32, 0i32, 0i32, 0i32],
            !rect.is_updated,
    {
        let regions: RegionsIds = [0; 4];
        assert(regions@ =~= seq![0i32, 0i32, 0i32, 0i32]);
        Rect {
            id,
            class,
            bounds: Bounds {
                min_x: x - half_width,
                max_x: x + half_width,
                min_y: y - height,
                max_y: y,
            },
            regions,
            is_updated: false,
        }
    }
}

/// What one tick reports: events first in the order of the pipeline, then
/// the players that moved.
#[derive(Debug)]
pub struct UpdateResults {
    pub events: Vec<Event>,
    pub positions_updates: Vec<PositionUpdate>,
}

impl EventClass {
    /// The number that stands for the kind in a flat list of numbers.
    pub open spec fn code_of(self) -> i32 {
        match self {
            EventClass::OutOfWorld => 0,
            EventClass::Sensor => 1,
            EventClass::Item => 2,
        }
    }

    /// The number that stands for the kind in a flat list of numbers.
    pub fn code(&self) -> (code: i32)
        ensures
            code == self.code_of(),
    {
        match self {
            EventClass::OutOfWorld => 0,
            EventClass::Sensor => 1,
            EventClass::Item => 2,
        }
    }
}

/// The events as numbers, three for each: kind, body and trigger.
pub open spec fn flat_events(events: Seq<Event>) -> Seq<i32>
    decreases events.len(),
{
    if events.len() == 0 {
        Seq::empty()
    } else {
        flat_events(events.drop_last()) + seq![
            events.last().class.code_of(),
            events.last().body_id as i32,
            events.last().trigger_id as i32,
        ]
    }
}

/// The position updates as numbers, three for each: body, x and y.
pub open spec fn flat_updates(updates: Seq<PositionUpdate>) -> Seq<i32>
    decreases updates.len(),
{
    if updates.len() == 0 {
        Seq::empty()
    } else {
        flat_updates(updates.drop_last()) + seq![
            updates.last().id as i32,
            updates.last().x,
            updates.last().y,
        ]
    }
}

impl UpdateResults {
    /// The results as one list of numbers: the events, three zeros that
    /// end them, and the position updates.
    pub fn flatten(&self) -> (flat: Vec<i32>)
        ensures
            flat@ == flat_events(self.events@) + seq![0i32, 0i32, 0i32] + flat_updates(
                self.positions_updates@,
            ),
    {
        let mut result: Vec<i32> = Vec::new();
        let mut i: usize = 0;
        while i < self.events.len()
            invariant
                0 <= i <= self.events.len(),
                result@ == flat_events(self.events@.take(i as int)),
            decreases self.events.len() - i,
        {
            let event = &self.events[i];
            result.push(event.class.code());
            result.push(#[verifier::truncate] (event.body_id as i32));
            result.push(#[verifier::truncate] (event.trigger_id as i32));
            proof {
                let next = self.events@.take(i + 1);
                assert(next.drop_last() =~= self.events@.take(i as int));
                assert(next.last() == self.events@[i as int]);
                assert(result@ =~= flat_events(next));
            }
            i = i + 1;
        }
        proof {
            assert(self.events@.take(i as int) =~= self.events@);
        }
        result.push(0);
        result.push(0);
        result.push(0);
        let ghost head = flat_events(self.events@) + seq![0i32, 0i32, 0i32];
        proof {
            assert(result@ =~= head);
            assert(self.positions_updates@.take(0) =~= Seq::<PositionUpdate>::empty());
            assert(result@ =~= head + flat_updates(self.positions_updates@.take(0)));
        }
        let mut j: usize = 0;
        while j < self.positions_updates.len()
            invariant
                0 <= j <= self.positions_updates.len(),
                result@ == head + flat_updates(self.positions_updates@.take(j as int)),
            decreases self.positions_updates.len() - j,
        {
            let update = &self.positions_updates[j];
            result.push(#[verifier::truncate] (update.id as i32));
            result.push(update.x);
            result.push(update.y);
            proof {
                let next = self.positions_updates@.take(j + 1);
                assert(next.drop_last() =~= self.positions_updates@.take(j as int));
                assert(next.last() == self.positions_updates@[j as int]);
                assert(result@ =~= head + flat_updates(next));
            }
            j = j + 1;
        }
        proof {
            assert(self.positions_updates@.take(j as int) =~= self.positions_updates@);
        }
        result
    }
}

/// Overlap of two boxes along x: positive when they share interior points
/// on that axis, zero when they touch, negative when they are apart.
pub open spec fn overlap_x(a: Bounds, b: Bounds) -> int {
    let hi = if a.max_x <= b.max_x { a.max_x as int } else { b.max_x as int };
    let lo = if a.min_x >= b.min_x { a.min_x as int } else { b.min_x as int };
    hi - lo
}

/// Overlap of two boxes along y.
pub open spec fn overlap_y(a: Bounds, b: Bounds) -> int {
    let hi = if a.max_y <= b.max_y { a.max_y as int } else { b.max_y as int };
    let lo = if a.min_y >= b.min_y { a.min_y as int } else { b.min_y as int };
    hi - lo
}

/// Two boxes are in contact when they overlap on both axes.
pub open spec fn boxes_overlap(a: Bounds, b: Bounds) -> bool {
    overlap_x(a, b) > 0 && overlap_y(a, b) > 0
}

/// Extent of the intersection of two boxes on each axis.
pub fn get_bounds_intersection(bounds1: &Bounds, bounds2: &Bounds) -> (v: Vector)
    requires
        i32::MIN <= overlap_x(*bounds1, *bounds2) <= i32::MAX,
        i32::MIN <= overlap_y(*bounds1, *bounds2) <= i32::MAX,
    ensures
        v.x == overlap_x(*bounds1, *bounds2),
        v.y == overlap_y(*bounds1, *bounds2),
{
    let max_min_x = if bounds1.min_x >= bounds2.min_x { bounds1.min_x } else { bounds2.min_x };
    let min_max_x = if bounds1.max_x <= bounds2.max_x { bounds1.max_x } else { bounds2.max_x };
    let max_min_y = if bounds1.min_y >= bounds2.min_y { bounds1.min_y } else { bounds2.min_y };
    let min_max_y = if bounds1.max_y <= bounds2.max_y { bounds1.max_y } else { bounds2.max_y };
    Vector { x: min_max_x - max_min_x, y: min_max_y - max_min_y }
}

/// Collision records by body id.
pub type Rects = HashMap<BodyId, Rect>;

/// The cell that holds the coordinate `v`.
pub open spec fn cell_of(v: int) -> int {
    v / (BLOCK_SIZE as int)
}

/// The box of the cell `(cx, cy)`.
pub open spec fn block_bounds(cx: int, cy: int) -> Bounds {
    Bounds {
        min_x: (cx * BLOCK_SIZE) as i32,
        max_x: (cx * BLOCK_SIZE + BLOCK_SIZE) as i32,
        min_y: (cy * BLOCK_SIZE) as i32,
        max_y: (cy * BLOCK_SIZE + BLOCK_SIZE) as i32,
    }
}

/// The push that the block in cell `(cx, cy)` gives the player: nothing
/// if the cell holds no block or the block does not overlap the player's
/// box. Else the overlap on each axis, away from the side of the block
/// that the player is nearer to. An axis on which the player overlapped
/// the block a tick ago is left out, x first. Without such a history the
/// push along x is left out while the player has speed, and the push
/// along y while it jumps or falls.
pub open spec fn cell_push(player: BodyPlayer, cells: &Cells, cx: int, cy: int) -> (int, int) {
    let bounds = player.bounds();
    let block = block_bounds(cx, cy);
    if !cells.block_at(cx, cy) || !boxes_overlap(bounds, block) {
        (0, 0)
    } else {
        let push_x = if player.x < block.min_x + BLOCK_HALF_SIZE {
            -overlap_x(bounds, block)
        } else {
            overlap_x(bounds, block)
        };
        let push_y = if bounds.max_y < block.max_y {
            -overlap_y(bounds, block)
        } else {
            overlap_y(bounds, block)
        };
        if overlap_x(player.prev_bounds(), block) > 0 {
            (0, push_y)
        } else if overlap_y(player.prev_bounds(), block) > 0 {
            (push_x, 0)
        } else {
            (
                if player.force_x != 0 {
                    0
                } else {
                    push_x
                },
                if player.is_fall || player.is_jump {
                    0
                } else {
                    push_y
                },
            )
        }
    }
}

/// The size of a push, whatever its direction.
pub open spec fn magnitude_of(push: int) -> int {
    if push < 0 {
        -push
    } else {
        push
    }
}

/// Of two pushes along one axis the one of greater magnitude, the earlier
/// one among equals.
pub open spec fn stronger(earlier: int, later: int) -> int {
    if magnitude_of(later) > magnitude_of(earlier) {
        later
    } else {
        earlier
    }
}

/// The pushes of the first `count` cells of column `cx`, from row
/// `first_cy` on, merged into `start` axis by axis.
pub open spec fn column_push(
    player: BodyPlayer,
    cells: &Cells,
    start: (int, int),
    cx: int,
    first_cy: int,
    count: nat,
) -> (int, int)
    decreases count,
{
    if count == 0 {
        start
    } else {
        let before = column_push(player, cells, start, cx, first_cy, (count - 1) as nat);
        let push = cell_push(player, cells, cx, first_cy + count - 1);
        (stronger(before.0, push.0), stronger(before.1, push.1))
    }
}

/// The pushes of the first `columns` columns from `first_cx` on, each of
/// `rows` cells from row `first_cy` on, merged axis by axis.
pub open spec fn columns_push(
    player: BodyPlayer,
    cells: &Cells,
    first_cx: int,
    columns: nat,
    first_cy: int,
    rows: nat,
) -> (int, int)
    decreases columns,
{
    if columns == 0 {
        (0, 0)
    } else {
        column_push(
            player,
            cells,
            columns_push(player, cells, first_cx, (columns - 1) as nat, first_cy, rows),
            first_cx + columns - 1,
            first_cy,
            rows,
        )
    }
}

/// The correction that the terrain gives the player: over the cells that
/// its box spans, column by column, the push of greatest magnitude on each
/// axis.
pub open spec fn terrain_push(player: BodyPlayer, cells: &Cells) -> (int, int) {
    let bounds = player.bounds();
    columns_push(
        player,
        cells,
        cell_of(bounds.min_x as int),
        (cell_of(bounds.max_x as int) - cell_of(bounds.min_x as int) + 1) as nat,
        cell_of(bounds.min_y as int),
        (cell_of(bounds.max_y as int) - cell_of(bounds.min_y as int) + 1) as nat,
    )
}

/// The player after the terrain had its say: unchanged without a push,
/// else told of the push and moved by it.
pub open spec fn terrain_corrected(player: BodyPlayer, cells: &Cells) -> BodyPlayer {
    let push = terrain_push(player, cells);
    if push == (0int, 0int) {
        player
    } else {
        let told = player.corrected(Vector { x: push.0 as i32, y: push.1 as i32 });
        BodyPlayer {
            x: crate::body::player::clamp_coord(told.x + push.0) as i32,
            y: crate::body::player::clamp_coord(told.y + push.1) as i32,
            ..told
        }
    }
}

/// The cell that holds the coordinate `v`.
pub fn cell_index(v: i32) -> (c: i32)
    ensures
        c == cell_of(v as int),
{
    assert(v >> 7 == (v as int) / 128) by (bit_vector);
    v >> 7
}

fn magnitude(v: i32) -> (m: i32)
    requires
        v > i32::MIN,
    ensures
        m == magnitude_of(v as int),
{
    if v < 0 {
        -v
    } else {
        v
    }
}

/// A push along one axis stays within the size of a block.
proof fn lemma_cell_push_small(player: BodyPlayer, cells: &Cells, cx: int, cy: int)
    requires
        player.wf(),
        cell_of(player.bounds().min_x as int) <= cx <= cell_of(player.bounds().max_x as int),
        cell_of(player.bounds().min_y as int) <= cy <= cell_of(player.bounds().max_y as int),
    ensures
        -BLOCK_SIZE <= cell_push(player, cells, cx, cy).0 <= BLOCK_SIZE,
        -BLOCK_SIZE <= cell_push(player, cells, cx, cy).1 <= BLOCK_SIZE,
{
}

proof fn lemma_column_push_greatest(
    player: BodyPlayer,
    cells: &Cells,
    start: (int, int),
    cx: int,
    first_cy: int,
    count: nat,
    row: int,
)
    ensures
        magnitude_of(column_push(player, cells, start, cx, first_cy, count).0) >= magnitude_of(
            start.0,
        ),
        magnitude_of(column_push(player, cells, start, cx, first_cy, count).1) >= magnitude_of(
            start.1,
        ),
        first_cy <= row < first_cy + count ==> magnitude_of(
            column_push(player, cells, start, cx, first_cy, count).0,
        ) >= magnitude_of(cell_push(player, cells, cx, row).0) && magnitude_of(
            column_push(player, cells, start, cx, first_cy, count).1,
        ) >= magnitude_of(cell_push(player, cells, cx, row).1),
    decreases count,
{
    if count > 0 {
        lemma_column_push_greatest(player, cells, start, cx, first_cy, (count - 1) as nat, row);
    }
}

proof fn lemma_columns_push_greatest(
    player: BodyPlayer,
    cells: &Cells,
    first_cx: int,
    columns: nat,
    first_cy: int,
    rows: nat,
    col: int,
    row: int,
)
    requires
        first_cx <= col < first_cx + columns,
        first_cy <= row < first_cy + rows,
    ensures
        magnitude_of(columns_push(player, cells, first_cx, columns, first_cy, rows).0)
            >= magnitude_of(cell_push(player, cells, col, row).0),
        magnitude_of(columns_push(player, cells, first_cx, columns, first_cy, rows).1)
            >= magnitude_of(cell_push(player, cells, col, row).1),
    decreases columns,
{
    let before = columns_push(player, cells, first_cx, (columns - 1) as nat, first_cy, rows);
    lemma_column_push_greatest(
        player,
        cells,
        before,
        first_cx + columns - 1,
        first_cy,
        rows,
        row,
    );
    if col < first_cx + columns - 1 {
        lemma_columns_push_greatest(
            player,
            cells,
            first_cx,
            (columns - 1) as nat,
            first_cy,
            rows,
            col,
            row,
        );
    }
}

proof fn lemma_column_push_attained(
    player: BodyPlayer,
    cells: &Cells,
    start: (int, int),
    cx: int,
    first_cy: int,
    count: nat,
)
    ensures
        column_push(player, cells, start, cx, first_cy, count).0 == start.0 || exists|row: int|
            first_cy <= row < first_cy + count && #[trigger] cell_push(player, cells, cx, row).0
                == column_push(player, cells, start, cx, first_cy, count).0,
        column_push(player, cells, start, cx, first_cy, count).1 == start.1 || exists|row: int|
            first_cy <= row < first_cy + count && #[trigger] cell_push(player, cells, cx, row).1
                == column_push(player, cells, start, cx, first_cy, count).1,
    decreases count,
{
    if count > 0 {
        let shorter = (count - 1) as nat;
        let before = column_push(player, cells, start, cx, first_cy, shorter);
        let after = column_push(player, cells, start, cx, first_cy, count);
        let last = first_cy + count - 1;
        lemma_column_push_attained(player, cells, start, cx, first_cy, shorter);
        if after.0 != start.0 {
            if after.0 == before.0 {
                let row = choose|row: int|
                    first_cy <= row < first_cy + shorter && #[trigger] cell_push(
                        player,
                        cells,
                        cx,
                        row,
                    ).0 == before.0;
                assert(first_cy <= row < first_cy + count && cell_push(player, cells, cx, row).0
                    == after.0);
            } else {
                assert(first_cy <= last < first_cy + count && cell_push(player, cells, cx, last).0
                    == after.0);
            }
        }
        if after.1 != start.1 {
            if after.1 == before.1 {
                let row = choose|row: int|
                    first_cy <= row < first_cy + shorter && #[trigger] cell_push(
                        player,
                        cells,
                        cx,
                        row,
                    ).1 == before.1;
                assert(first_cy <= row < first_cy + count && cell_push(player, cells, cx, row).1
                    == after.1);
            } else {
                assert(first_cy <= last < first_cy + count && cell_push(player, cells, cx, last).1
                    == after.1);
            }
        }
    }
}

proof fn lemma_columns_push_attained(
    player: BodyPlayer,
    cells: &Cells,
    first_cx: int,
    columns: nat,
    first_cy: int,
    rows: nat,
)
    ensures
        columns_push(player, cells, first_cx, columns, first_cy, rows).0 == 0 || exists|
            col: int,
            row: int,
        |
            first_cx <= col < first_cx + columns && first_cy <= row < first_cy + rows
                && #[trigger] cell_push(player, cells, col, row).0 == columns_push(
                player,
                cells,
                first_cx,
                columns,
                first_cy,
                rows,
            ).0,
        columns_push(player, cells, first_cx, columns, first_cy, rows).1 == 0 || exists|
            col: int,
            row: int,
        |
            first_cx <= col < first_cx + columns && first_cy <= row < first_cy + rows
                && #[trigger] cell_push(player, cells, col, row).1 == columns_push(
                player,
                cells,
                first_cx,
                columns,
                first_cy,
                rows,
            ).1,
    decreases columns,
{
    if columns > 0 {
        let shorter = (columns - 1) as nat;
        let before = columns_push(player, cells, first_cx, shorter, first_cy, rows);
        let after = columns_push(player, cells, first_cx, columns, first_cy, rows);
        let last = first_cx + columns - 1;
        lemma_columns_push_attained(player, cells, first_cx, shorter, first_cy, rows);
        lemma_column_push_attained(player, cells, before, last, first_cy, rows);
        if after.0 != 0 {
            if after.0 == before.0 {
                let (col, row) = choose|col: int, row: int|
                    first_cx <= col < first_cx + shorter && first_cy <= row < first_cy + rows
                        && #[trigger] cell_push(player, cells, col, row).0 == before.0;
                assert(first_cx <= col < first_cx + columns && first_cy <= row < first_cy + rows
                    && cell_push(player, cells, col, row).0 == after.0);
            } else {
                let row = choose|row: int|
                    first_cy <= row < first_cy + rows && #[trigger] cell_push(
                        player,
                        cells,
                        last,
                        row,
                    ).0 == after.0;
                assert(first_cx <= last < first_cx + columns && first_cy <= row < first_cy + rows
                    && cell_push(player, cells, last, row).0 == after.0);
            }
        }
        if after.1 != 0 {
            if after.1 == before.1 {
                let (col, row) = choose|col: int, row: int|
                    first_cx <= col < first_cx + shorter && first_cy <= row < first_cy + rows
                        && #[trigger] cell_push(player, cells, col, row).1 == before.1;
                assert(first_cx <= col < first_cx + columns && first_cy <= row < first_cy + rows
                    && cell_push(player, cells, col, row).1 == after.1);
            } else {
                let row = choose|row: int|
                    first_cy <= row < first_cy + rows && #[trigger] cell_push(
                        player,
                        cells,
                        last,
                        row,
                    ).1 == after.1;
                assert(first_cx <= last < first_cx + columns && first_cy <= row < first_cy + rows
                    && cell_push(player, cells, last, row).1 == after.1);
            }
        }
    }
}

/// The cell lies among those that the box of the player spans.
pub open spec fn cell_in_span(player: BodyPlayer, cx: int, cy: int) -> bool {
    &&& cell_of(player.bounds().min_x as int) <= cx <= cell_of(player.bounds().max_x as int)
    &&& cell_of(player.bounds().min_y as int) <= cy <= cell_of(player.bounds().max_y as int)
}

/// On each axis the correction of the terrain is the greatest of the
/// pushes of the cells that the box spans: no cell pushes further, and a
/// correction other than zero is the push of one of them.
pub proof fn lemma_terrain_push_greatest(player: BodyPlayer, cells: &Cells)
    ensures
        forall|cx: int, cy: int| #[trigger]
            cell_in_span(player, cx, cy) ==> magnitude_of(terrain_push(player, cells).0)
                >= magnitude_of(cell_push(player, cells, cx, cy).0) && magnitude_of(
                terrain_push(player, cells).1,
            ) >= magnitude_of(cell_push(player, cells, cx, cy).1),
        terrain_push(player, cells).0 == 0 || exists|cx: int, cy: int|
            cell_in_span(player, cx, cy) && #[trigger] cell_push(player, cells, cx, cy).0
                == terrain_push(player, cells).0,
        terrain_push(player, cells).1 == 0 || exists|cx: int, cy: int|
            cell_in_span(player, cx, cy) && #[trigger] cell_push(player, cells, cx, cy).1
                == terrain_push(player, cells).1,
{
    let bounds = player.bounds();
    let first_cx = cell_of(bounds.min_x as int);
    let first_cy = cell_of(bounds.min_y as int);
    let columns = (cell_of(bounds.max_x as int) - first_cx + 1) as nat;
    let rows = (cell_of(bounds.max_y as int) - first_cy + 1) as nat;
    let push = terrain_push(player, cells);
    assert forall|cx: int, cy: int| #[trigger] cell_in_span(player, cx, cy) implies magnitude_of(
        push.0,
    ) >= magnitude_of(cell_push(player, cells, cx, cy).0) && magnitude_of(push.1) >= magnitude_of(
        cell_push(player, cells, cx, cy).1,
    ) by {
        lemma_columns_push_greatest(player, cells, first_cx, columns, first_cy, rows, cx, cy);
    }
    lemma_columns_push_attained(player, cells, first_cx, columns, first_cy, rows);
    if push.0 != 0 {
        let (cx, cy) = choose|col: int, row: int|
            first_cx <= col < first_cx + columns && first_cy <= row < first_cy + rows
                && #[trigger] cell_push(player, cells, col, row).0 == push.0;
        assert(cell_in_span(player, cx, cy) && cell_push(player, cells, cx, cy).0 == push.0);
    }
    if push.1 != 0 {
        let (cx, cy) = choose|col: int, row: int|
            first_cx <= col < first_cx + columns && first_cy <= row < first_cy + rows
                && #[trigger] cell_push(player, cells, col, row).1 == push.1;
        assert(cell_in_span(player, cx, cy) && cell_push(player, cells, cx, cy).1 == push.1);
    }
}

/// A player that came down onto a block is pushed up: if its box overlaps
/// a block whose lower edge it has not reached, and a tick ago it was
/// already above the block on the x axis, and no block that the box spans
/// pushes it down, then the correction of the terrain points up.
pub proof fn lemma_pushed_up(player: BodyPlayer, cells: &Cells, cx: int, cy: int)
    requires
        cell_in_span(player, cx, cy),
        cells.block_at(cx, cy),
        boxes_overlap(player.bounds(), block_bounds(cx, cy)),
        player.bounds().max_y < block_bounds(cx, cy).max_y,
        overlap_x(player.prev_bounds(), block_bounds(cx, cy)) > 0,
        forall|col: int, row: int| #[trigger]
            cell_in_span(player, col, row) ==> cell_push(player, cells, col, row).1 <= 0,
    ensures
        terrain_push(player, cells).1 < 0,
        terrain_push(player, cells).1 <= -overlap_y(player.bounds(), block_bounds(cx, cy)),
{
    lemma_terrain_push_greatest(player, cells);
    assert(cell_push(player, cells, cx, cy).1 == -overlap_y(
        player.bounds(),
        block_bounds(cx, cy),
    ));
    let push = terrain_push(player, cells);
    assert(magnitude_of(push.1) >= magnitude_of(cell_push(player, cells, cx, cy).1));
    let (col, row) = choose|col: int, row: int|
        cell_in_span(player, col, row) && #[trigger] cell_push(player, cells, col, row).1
            == push.1;
    assert(cell_push(player, cells, col, row).1 <= 0);
}

proof fn lemma_column_push_small(
    player: BodyPlayer,
    cells: &Cells,
    start: (int, int),
    cx: int,
    count: nat,
)
    requires
        player.wf(),
        -BLOCK_SIZE <= start.0 <= BLOCK_SIZE,
        -BLOCK_SIZE <= start.1 <= BLOCK_SIZE,
        cell_of(player.bounds().min_x as int) <= cx <= cell_of(player.bounds().max_x as int),
        cell_of(player.bounds().min_y as int) + count - 1 <= cell_of(player.bounds().max_y as int),
    ensures
        -BLOCK_SIZE <= column_push(
            player,
            cells,
            start,
            cx,
            cell_of(player.bounds().min_y as int),
            count,
        ).0 <= BLOCK_SIZE,
        -BLOCK_SIZE <= column_push(
            player,
            cells,
            start,
            cx,
            cell_of(player.bounds().min_y as int),
            count,
        ).1 <= BLOCK_SIZE,
    decreases count,
{
    if count > 0 {
        lemma_column_push_small(player, cells, start, cx, (count - 1) as nat);
        lemma_cell_push_small(
            player,
            cells,
            cx,
            cell_of(player.bounds().min_y as int) + count - 1,
        );
    }
}

proof fn lemma_columns_push_small(player: BodyPlayer, cells: &Cells, columns: nat, rows: nat)
    requires
        player.wf(),
        cell_of(player.bounds().min_x as int) + columns - 1 <= cell_of(
            player.bounds().max_x as int,
        ),
        cell_of(player.bounds().min_y as int) + rows - 1 <= cell_of(player.bounds().max_y as int),
    ensures
        -BLOCK_SIZE <= columns_push(
            player,
            cells,
            cell_of(player.bounds().min_x as int),
            columns,
            cell_of(player.bounds().min_y as int),
            rows,
        ).0 <= BLOCK_SIZE,
        -BLOCK_SIZE <= columns_push(
            player,
            cells,
            cell_of(player.bounds().min_x as int),
            columns,
            cell_of(player.bounds().min_y as int),
            rows,
        ).1 <= BLOCK_SIZE,
    decreases columns,
{
    if columns > 0 {
        lemma_columns_push_small(player, cells, (columns - 1) as nat, rows);
        lemma_column_push_small(
            player,
            cells,
            columns_push(
                player,
                cells,
                cell_of(player.bounds().min_x as int),
                (columns - 1) as nat,
                cell_of(player.bounds().min_y as int),
                rows,
            ),
            cell_of(player.bounds().min_x as int) + columns - 1,
            rows,
        );
    }
}

/// The terrain never pushes a player further than the size of a block on
/// either axis.
pub proof fn lemma_terrain_push_small(player: BodyPlayer, cells: &Cells)
    requires
        player.wf(),
    ensures
        -BLOCK_SIZE <= terrain_push(player, cells).0 <= BLOCK_SIZE,
        -BLOCK_SIZE <= terrain_push(player, cells).1 <= BLOCK_SIZE,
{
    let bounds = player.bounds();
    lemma_columns_push_small(
        player,
        cells,
        (cell_of(bounds.max_x as int) - cell_of(bounds.min_x as int) + 1) as nat,
        (cell_of(bounds.max_y as int) - cell_of(bounds.min_y as int) + 1) as nat,
    );
}

/// Resolves one player against the blocks of the cell store.
pub fn correct_player(cells: &Cells, rect: &mut Rect, player: &mut BodyPlayer)
    requires
        cells.wf(),
        old(player).wf(),
        old(rect).bounds == old(player).bounds(),
    ensures
        final(player).wf(),
        *final(player) == terrain_corrected(*old(player), cells),
        final(rect).bounds == final(player).bounds(),
        *final(rect) == (Rect { bounds: final(player).bounds(), ..*old(rect) }),
{
    let min_x = cell_index(rect.bounds.min_x);
    let max_x = cell_index(rect.bounds.max_x);
    let min_y = cell_index(rect.bounds.min_y);
    let max_y = cell_index(rect.bounds.max_y);
    let ghost rows = (max_y - min_y + 1) as nat;
    let ghost before = *player;
    let mut correction = Vector { x: 0, y: 0 };
    let mut x_cell = min_x;
    while x_cell <= max_x
        invariant
            cells.wf(),
            *player == before,
            before.wf(),
            rect.bounds == before.bounds(),
            min_x == cell_of(before.bounds().min_x as int),
            max_x == cell_of(before.bounds().max_x as int),
            min_y == cell_of(before.bounds().min_y as int),
            max_y == cell_of(before.bounds().max_y as int),
            rows == max_y - min_y + 1,
            min_x <= x_cell <= max_x + 1,
            -BLOCK_SIZE <= correction.x <= BLOCK_SIZE,
            -BLOCK_SIZE <= correction.y <= BLOCK_SIZE,
            (correction.x as int, correction.y as int) == columns_push(
                before,
                cells,
                min_x as int,
                (x_cell - min_x) as nat,
                min_y as int,
                rows,
            ),
        decreases max_x + 1 - x_cell,
    {
        let ghost start = (correction.x as int, correction.y as int);
        let mut y_cell = min_y;
        while y_cell <= max_y
            invariant
                cells.wf(),
                *player == before,
                before.wf(),
                rect.bounds == before.bounds(),
                min_x == cell_of(before.bounds().min_x as int),
                max_x == cell_of(before.bounds().max_x as int),
                min_y == cell_of(before.bounds().min_y as int),
                max_y == cell_of(before.bounds().max_y as int),
                min_x <= x_cell <= max_x,
                min_y <= y_cell <= max_y + 1,
                -BLOCK_SIZE <= correction.x <= BLOCK_SIZE,
                -BLOCK_SIZE <= correction.y <= BLOCK_SIZE,
                (correction.x as int, correction.y as int) == column_push(
                    before,
                    cells,
                    start,
                    x_cell as int,
                    min_y as int,
                    (y_cell - min_y) as nat,
                ),
            decreases max_y + 1 - y_cell,
        {
            proof {
                lemma_cell_push_small(before, cells, x_cell as int, y_cell as int);
            }
            if cells.is_block(x_cell, y_cell) {
                let x = x_cell * BLOCK_SIZE;
                let y = y_cell * BLOCK_SIZE;
                let block_bounds = Bounds {
                    min_x: x,
                    max_x: x + BLOCK_SIZE,
                    min_y: y,
                    max_y: y + BLOCK_SIZE,
                };
                let intersection = get_bounds_intersection(&rect.bounds, &block_bounds);
                if intersection.x > 0 && intersection.y > 0 {
                    let mut correction_x = intersection.x;
                    let mut correction_y = intersection.y;
                    if rect.bounds.max_y < block_bounds.max_y {
                        correction_y = -correction_y;
                    }
                    if player.x < x + BLOCK_HALF_SIZE {
                        correction_x = -correction_x;
                    }
                    let prev_bounds = Bounds {
                        min_x: player.prev_x - crate::body::player::BODY_PLAYER_HALF_WIDTH,
                        max_x: player.prev_x + crate::body::player::BODY_PLAYER_HALF_WIDTH,
                        min_y: player.prev_y - crate::body::player::BODY_PLAYER_HEIGHT,
                        max_y: player.prev_y,
                    };
                    let prev_intersection = get_bounds_intersection(&prev_bounds, &block_bounds);
                    if prev_intersection.x > 0 {
                        correction_x = 0;
                    } else if prev_intersection.y > 0 {
                        correction_y = 0;
                    } else {
                        if player.force_x != 0 {
                            correction_x = 0;
                        }
                        if player.is_fall || player.is_jump {
                            correction_y = 0;
                        }
                    }
                    if magnitude(correction_x) > magnitude(correction.x) {
                        correction.x = correction_x;
                    }
                    if magnitude(correction_y) > magnitude(correction.y) {
                        correction.y = correction_y;
                    }
                }
            }
            y_cell = y_cell + 1;
        }
        x_cell = x_cell + 1;
    }
    if correction.x == 0 && correction.y == 0 {
        return ;
    }
    player.update_correction(&correction);
    let new_x = shifted(player.x, correction.x as i128);
    let new_y = shifted(player.y, correction.y as i128);
    player.x = new_x;
    player.y = new_y;
    rect.bounds.min_x = new_x - crate::body::player::BODY_PLAYER_HALF_WIDTH;
    rect.bounds.max_x = new_x + crate::body::player::BODY_PLAYER_HALF_WIDTH;
    rect.bounds.min_y = new_y - crate::body::player::BODY_PLAYER_HEIGHT;
    rect.bounds.max_y = new_y;
}

/// The ids of the bodies in `bodies`, each once, in the order in which
/// the map hands them out.
pub fn body_ids<B>(bodies: &Bodies<B>) -> (ids: Vec<BodyId>)
    ensures
        ids@.no_duplicates(),
        ids@.to_set() == bodies@.dom(),
{
    broadcast use vstd::std_specs::hash::group_hash_axioms;

    let mut ids: Vec<BodyId> = Vec::new();
    let ghost full: Seq<BodyId> = bodies.keys().remaining().unref();
    for id in it: bodies.keys()
        invariant
            it.seq().unref() == full,
            full.no_duplicates(),
            full.to_set() == bodies@.dom(),
            ids@ == full.take(it.index()),
    {
        ids.push(*id);
    }
    assert(ids@ == full);
    ids
}

/// The box crosses an edge of a world of the given size.
pub open spec fn out_of_world(bounds: Bounds, world_width: int, world_height: int) -> bool {
    bounds.min_x < 0 || bounds.max_x > world_width || bounds.min_y < 0 || bounds.max_y
        > world_height
}

/// The record of a body after the body has moved: rewritten if it was
/// marked as changed or the body is active.
pub open spec fn stepped_rect<B: Body>(body: B, rect: Rect, elapsed: u64) -> Rect {
    if rect.is_updated || body.active() {
        body.stepped(elapsed).placed(Rect { is_updated: true, ..rect })
    } else {
        rect
    }
}

/// One event for each body of `order`, in that order, whose box has left
/// the world.
pub open spec fn out_of_world_events(
    order: Seq<BodyId>,
    rects: Map<BodyId, Rect>,
    world_width: int,
    world_height: int,
) -> Seq<Event>
    decreases order.len(),
{
    if order.len() == 0 {
        Seq::empty()
    } else {
        let before = out_of_world_events(order.drop_last(), rects, world_width, world_height);
        if out_of_world(rects[order.last()].bounds, world_width, world_height) {
            before.push(
                Event { class: EventClass::OutOfWorld, body_id: order.last(), trigger_id: 0 },
            )
        } else {
            before
        }
    }
}

/// The events depend on the records of the bodies in `order` alone.
proof fn lemma_out_of_world_events_of(
    order: Seq<BodyId>,
    rects1: Map<BodyId, Rect>,
    rects2: Map<BodyId, Rect>,
    world_width: int,
    world_height: int,
)
    requires
        forall|j: int| 0 <= j < order.len() ==> rects1[#[trigger] order[j]] == rects2[order[j]],
    ensures
        out_of_world_events(order, rects1, world_width, world_height) == out_of_world_events(
            order,
            rects2,
            world_width,
            world_height,
        ),
    decreases order.len(),
{
    if order.len() > 0 {
        let shorter = order.drop_last();
        assert forall|j: int| 0 <= j < shorter.len() implies rects1[#[trigger] shorter[j]]
            == rects2[shorter[j]] by {
            assert(shorter[j] == order[j]);
        }
        lemma_out_of_world_events_of(shorter, rects1, rects2, world_width, world_height);
        assert(order.last() == order[order.len() - 1]);
    }
}

/// Every body of `order` whose box has left the world is reported once,
/// and nothing else is.
pub proof fn lemma_out_of_world_events(
    order: Seq<BodyId>,
    rects: Map<BodyId, Rect>,
    world_width: int,
    world_height: int,
)
    requires
        order.no_duplicates(),
    ensures
        out_of_world_events(order, rects, world_width, world_height).no_duplicates(),
        forall|event: Event|
            out_of_world_events(order, rects, world_width, world_height).contains(event) <==> (
            event.class == EventClass::OutOfWorld && event.trigger_id == 0 && order.contains(
                event.body_id,
            ) && out_of_world(rects[event.body_id].bounds, world_width, world_height)),
    decreases order.len(),
{
    let events = out_of_world_events(order, rects, world_width, world_height);
    if order.len() > 0 {
        let shorter = order.drop_last();
        let before = out_of_world_events(shorter, rects, world_width, world_height);
        let id = order.last();
        lemma_out_of_world_events(shorter, rects, world_width, world_height);
        assert(!shorter.contains(id)) by {
            if shorter.contains(id) {
                let j = choose|j: int| 0 <= j < shorter.len() && shorter[j] == id;
                assert(order[j] == id);
            }
        }
        assert forall|x: BodyId| order.contains(x) <==> (shorter.contains(x) || x == id) by {
            if order.contains(x) {
                let j = choose|j: int| 0 <= j < order.len() && order[j] == x;
                if j < order.len() - 1 {
                    assert(shorter[j] == x);
                }
            }
            if shorter.contains(x) {
                let j = choose|j: int| 0 <= j < shorter.len() && shorter[j] == x;
                assert(order[j] == x);
            }
            if x == id {
                assert(order[order.len() - 1] == x);
            }
        }
        let new_event = Event { class: EventClass::OutOfWorld, body_id: id, trigger_id: 0 };
        if out_of_world(rects[id].bounds, world_width, world_height) {
            assert(events == before.push(new_event));
            assert(!before.contains(new_event));
            assert forall|event: Event|
                events.contains(event) <==> (event.class == EventClass::OutOfWorld
                    && event.trigger_id == 0 && order.contains(event.body_id) && out_of_world(
                    rects[event.body_id].bounds,
                    world_width,
                    world_height,
                )) by {
                vstd::seq_lib::lemma_seq_contains_after_push(before, new_event, event);
            }
            assert forall|a: int, b: int|
                0 <= a < events.len() && 0 <= b < events.len() && a != b implies events[a]
                != events[b] by {
                if a == before.len() {
                    assert(before.contains(before[b]));
                } else if b == before.len() {
                    assert(before.contains(before[a]));
                }
            }
        }
    }
}

/// Moves every body of `bodies` over `elapsed` microseconds. A body whose
/// box then crosses an edge of the world is put on the list of bodies to
/// remove and reported, with no trigger.
pub fn update_positions_typed<T: Body>(
    elapsed: u64,
    world_width: i32,
    world_height: i32,
    rects: &mut Rects,
    bodies: &mut Bodies<T>,
    ids_to_remove: &mut BodiesIds,
    events: &mut Vec<Event>,
)
    requires
        forall|id: BodyId| #[trigger]
            old(bodies)@.contains_key(id) ==> old(rects)@.contains_key(id) && old(
                bodies,
            )@[id].valid(),
    ensures
        final(bodies)@.dom() == old(bodies)@.dom(),
        forall|id: BodyId| #[trigger]
            old(bodies)@.contains_key(id) ==> final(bodies)@[id] == old(bodies)@[id].stepped(
                elapsed,
            ) && final(bodies)@[id].valid(),
        final(rects)@.dom() == old(rects)@.dom(),
        forall|id: BodyId| #[trigger]
            old(rects)@.contains_key(id) ==> final(rects)@[id] == (if old(bodies)@.contains_key(
                id,
            ) {
                stepped_rect(old(bodies)@[id], old(rects)@[id], elapsed)
            } else {
                old(rects)@[id]
            }),
        forall|id: BodyId|
            final(ids_to_remove)@.contains(id) <==> old(ids_to_remove)@.contains(id) || (old(
                bodies,
            )@.contains_key(id) && out_of_world(
                final(rects)@[id].bounds,
                world_width as int,
                world_height as int,
            )),
        exists|order: Seq<BodyId>|
            order.no_duplicates() && order.to_set() == old(bodies)@.dom() && final(events)@ == old(
                events,
            )@ + #[trigger] out_of_world_events(
                order,
                final(rects)@,
                world_width as int,
                world_height as int,
            ),
{
    broadcast use vstd::std_specs::hash::group_hash_axioms;

    let ids = body_ids(bodies);
    let ghost order = ids@;
    let ghost target = Map::<BodyId, Rect>::new(
        |id: BodyId| old(rects)@.contains_key(id),
        |id: BodyId|
            if old(bodies)@.contains_key(id) {
                stepped_rect(old(bodies)@[id], old(rects)@[id], elapsed)
            } else {
                old(rects)@[id]
            },
    );
    let mut i: usize = 0;
    proof {
        assert(order.take(0) =~= Seq::<BodyId>::empty());
        assert(events@ =~= old(events)@ + Seq::<Event>::empty());
    }
    while i < ids.len()
        invariant
            0 <= i <= ids.len(),
            ids@ == order,
            order.no_duplicates(),
            order.to_set() == old(bodies)@.dom(),
            bodies@.dom() == old(bodies)@.dom(),
            rects@.dom() == old(rects)@.dom(),
            target.dom() == old(rects)@.dom(),
            forall|id: BodyId|
                old(rects)@.contains_key(id) ==> #[trigger] target[id] == (if old(
                    bodies,
                )@.contains_key(id) {
                    stepped_rect(old(bodies)@[id], old(rects)@[id], elapsed)
                } else {
                    old(rects)@[id]
                }),
            forall|id: BodyId| #[trigger]
                old(bodies)@.contains_key(id) ==> old(rects)@.contains_key(id) && old(
                    bodies,
                )@[id].valid(),
            forall|j: int|
                0 <= j < i ==> bodies@[#[trigger] order[j]] == old(bodies)@[order[j]].stepped(
                    elapsed,
                ) && bodies@[order[j]].valid() && rects@[order[j]] == target[order[j]],
            forall|j: int|
                i <= j < order.len() ==> bodies@[#[trigger] order[j]] == old(bodies)@[order[j]]
                    && rects@[order[j]] == old(rects)@[order[j]],
            forall|id: BodyId|
                old(rects)@.contains_key(id) && !old(bodies)@.contains_key(id) ==> #[trigger] rects@[id]
                    == old(rects)@[id],
            forall|id: BodyId|
                ids_to_remove@.contains(id) <==> old(ids_to_remove)@.contains(id) || (exists|
                    j: int,
                |
                    0 <= j < i && #[trigger] order[j] == id && out_of_world(
                        target[id].bounds,
                        world_width as int,
                        world_height as int,
                    )),
            events@ == old(events)@ + out_of_world_events(
                order.take(i as int),
                target,
                world_width as int,
                world_height as int,
            ),
        decreases ids.len() - i,
    {
        let id = ids[i];
        let ghost rects_before = rects@;
        let ghost bodies_before = bodies@;
        let ghost removed_before = ids_to_remove@;
        proof {
            assert(order.to_set().contains(order[i as int]));
            assert(old(bodies)@.contains_key(id));
        }
        let mut outside = false;
        match bodies.entry(id) {
            Entry::Occupied(mut body_entry) => {
                let body = body_entry.get_mut();
                match rects.entry(id) {
                    Entry::Occupied(mut rect_entry) => {
                        let rect = rect_entry.get_mut();
                        body.update(elapsed, rect);
                        outside = rect.bounds.min_x < 0 || rect.bounds.max_x > world_width
                            || rect.bounds.min_y < 0 || rect.bounds.max_y > world_height;
                    },
                    Entry::Vacant(_vacant) => {
                        assert(false);
                    },
                }
            },
            Entry::Vacant(_vacant) => {
                assert(false);
            },
        }
        if outside {
            ids_to_remove.insert(id);
            events.push(Event { class: EventClass::OutOfWorld, body_id: id, trigger_id: 0 });
        }
        proof {
            assert(bodies@.dom() =~= old(bodies)@.dom());
            assert(rects@.dom() =~= old(rects)@.dom());
            assert(rects@[id] == target[id]);
            assert forall|j: int| 0 <= j < i + 1 implies bodies@[#[trigger] order[j]] == old(
                bodies,
            )@[order[j]].stepped(elapsed) && bodies@[order[j]].valid() && rects@[order[j]]
                == target[order[j]] by {
                if j < i {
                    assert(order[j] != id);
                }
            }
            assert forall|j: int| i + 1 <= j < order.len() implies bodies@[#[trigger] order[j]]
                == old(bodies)@[order[j]] && rects@[order[j]] == old(rects)@[order[j]] by {
                assert(order[j] != id);
            }
            let next = order.take(i + 1);
            assert(next.drop_last() =~= order.take(i as int));
            assert(next.last() == id);
            assert forall|x: BodyId|
                ids_to_remove@.contains(x) <==> old(ids_to_remove)@.contains(x) || (exists|j: int|
                    0 <= j < i + 1 && #[trigger] order[j] == x && out_of_world(
                        target[x].bounds,
                        world_width as int,
                        world_height as int,
                    )) by {
                if x == id && outside {
                    assert(order[i as int] == x);
                }
                if removed_before.contains(x) && !old(ids_to_remove)@.contains(x) {
                    let j = choose|j: int|
                        0 <= j < i && #[trigger] order[j] == x && out_of_world(
                            target[x].bounds,
                            world_width as int,
                            world_height as int,
                        );
                    assert(0 <= j < i + 1 && order[j] == x);
                }
                if exists|j: int|
                    0 <= j < i + 1 && #[trigger] order[j] == x && out_of_world(
                        target[x].bounds,
                        world_width as int,
                        world_height as int,
                    ) {
                    let j = choose|j: int|
                        0 <= j < i + 1 && #[trigger] order[j] == x && out_of_world(
                            target[x].bounds,
                            world_width as int,
                            world_height as int,
                        );
                    if j < i {
                        assert(removed_before.contains(x));
                    }
                }
            }
            let sofar = out_of_world_events(
                order.take(i as int),
                target,
                world_width as int,
                world_height as int,
            );
            if outside {
                assert(events@ =~= old(events)@ + sofar.push(
                    Event { class: EventClass::OutOfWorld, body_id: id, trigger_id: 0 },
                ));
            }
        }
        i = i + 1;
    }
    proof {
        assert(order.take(i as int) =~= order);
        assert forall|id: BodyId| #[trigger] old(rects)@.contains_key(id) implies rects@[id]
            == target[id] by {
            if old(bodies)@.contains_key(id) {
                assert(order.to_set().contains(id));
                let j = choose|j: int| 0 <= j < order.len() && order[j] == id;
                assert(rects@[order[j]] == target[order[j]]);
            }
        }
        assert forall|id: BodyId| #[trigger] old(bodies)@.contains_key(id) implies bodies@[id]
            == old(bodies)@[id].stepped(elapsed) && bodies@[id].valid() by {
            assert(order.to_set().contains(id));
            let j = choose|j: int| 0 <= j < order.len() && order[j] == id;
            assert(bodies@[order[j]] == old(bodies)@[order[j]].stepped(elapsed));
        }
        lemma_out_of_world_events_of(order, target, rects@, world_width as int, world_height as int);
        assert forall|id: BodyId|
            ids_to_remove@.contains(id) <==> old(ids_to_remove)@.contains(id) || (old(
                bodies,
            )@.contains_key(id) && out_of_world(
                rects@[id].bounds,
                world_width as int,
                world_height as int,
            )) by {
            if old(bodies)@.contains_key(id) && out_of_world(
                rects@[id].bounds,
                world_width as int,
                world_height as int,
            ) {
                assert(order.to_set().contains(id));
                let j = choose|j: int| 0 <= j < order.len() && order[j] == id;
                assert(order[j] == id);
            }
            if ids_to_remove@.contains(id) && !old(ids_to_remove)@.contains(id) {
                let j = choose|j: int|
                    0 <= j < i && #[trigger] order[j] == id && out_of_world(
                        target[id].bounds,
                        world_width as int,
                        world_height as int,
                    );
                assert(order.to_set().contains(order[j]));
            }
        }
    }
}

/// Resolves every player against the blocks of the cell store: each is
/// moved out of the blocks that its box overlaps, and learns of the push.
pub fn update_correct_players(cells: &Cells, rects: &mut Rects, players: &mut Bodies<BodyPlayer>)
    requires
        cells.wf(),
        forall|id: BodyId| #[trigger]
            old(players)@.contains_key(id) ==> old(rects)@.contains_key(id) && old(
                players,
            )@[id].wf() && old(rects)@[id].bounds == old(players)@[id].bounds(),
    ensures
        final(players)@.dom() == old(players)@.dom(),
        forall|id: BodyId| #[trigger]
            old(players)@.contains_key(id) ==> final(players)@[id] == terrain_corrected(
                old(players)@[id],
                cells,
            ) && final(players)@[id].wf(),
        final(rects)@.dom() == old(rects)@.dom(),
        forall|id: BodyId| #[trigger]
            old(rects)@.contains_key(id) ==> final(rects)@[id] == (if old(players)@.contains_key(
                id,
            ) {
                Rect { bounds: final(players)@[id].bounds(), ..old(rects)@[id] }
            } else {
                old(rects)@[id]
            }),
{
    broadcast use vstd::std_specs::hash::group_hash_axioms;

    let ids = body_ids(players);
    let ghost order = ids@;
    let mut i: usize = 0;
    while i < ids.len()
        invariant
            0 <= i <= ids.len(),
            cells.wf(),
            ids@ == order,
            order.no_duplicates(),
            order.to_set() == old(players)@.dom(),
            players@.dom() == old(players)@.dom(),
            rects@.dom() == old(rects)@.dom(),
            forall|id: BodyId| #[trigger]
                old(players)@.contains_key(id) ==> old(rects)@.contains_key(id) && old(
                    players,
                )@[id].wf() && old(rects)@[id].bounds == old(players)@[id].bounds(),
            forall|j: int|
                0 <= j < i ==> players@[#[trigger] order[j]] == terrain_corrected(
                    old(players)@[order[j]],
                    cells,
                ) && players@[order[j]].wf() && rects@[order[j]] == (Rect {
                    bounds: players@[order[j]].bounds(),
                    ..old(rects)@[order[j]]
                }),
            forall|j: int|
                i <= j < order.len() ==> players@[#[trigger] order[j]] == old(players)@[order[j]]
                    && rects@[order[j]] == old(rects)@[order[j]],
            forall|id: BodyId|
                old(rects)@.contains_key(id) && !old(players)@.contains_key(id) ==> #[trigger] rects@[id]
                    == old(rects)@[id],
        decreases ids.len() - i,
    {
        let id = ids[i];
        proof {
            assert(order.to_set().contains(order[i as int]));
            assert(old(players)@.contains_key(id));
        }
        match players.entry(id) {
            Entry::Occupied(mut player_entry) => {
                let player_body = player_entry.get_mut();
                match rects.entry(id) {
                    Entry::Occupied(mut rect_entry) => {
                        let rect = rect_entry.get_mut();
                        correct_player(cells, rect, player_body);
                    },
                    Entry::Vacant(_vacant) => {
                        assert(false);
                    },
                }
            },
            Entry::Vacant(_vacant) => {
                assert(false);
            },
        }
        proof {
            assert(players@.dom() =~= old(players)@.dom());
            assert(rects@.dom() =~= old(rects)@.dom());
            assert forall|j: int| 0 <= j < i + 1 implies players@[#[trigger] order[j]]
                == terrain_corrected(old(players)@[order[j]], cells) && players@[order[j]].wf()
                && rects@[order[j]] == (Rect {
                bounds: players@[order[j]].bounds(),
                ..old(rects)@[order[j]]
            }) by {
                if j < i {
                    assert(order[j] != id);
                }
            }
            assert forall|j: int| i + 1 <= j < order.len() implies players@[#[trigger] order[j]]
                == old(players)@[order[j]] && rects@[order[j]] == old(rects)@[order[j]] by {
                assert(order[j] != id);
            }
        }
        i = i + 1;
    }
    proof {
        assert forall|id: BodyId| #[trigger] old(players)@.contains_key(id) implies players@[id]
            == terrain_corrected(old(players)@[id], cells) && players@[id].wf() && rects@[id] == (
        Rect { bounds: players@[id].bounds(), ..old(rects)@[id] }) by {
            assert(order.to_set().contains(id));
            let j = choose|j: int| 0 <= j < order.len() && order[j] == id;
            assert(players@[order[j]] == terrain_corrected(old(players)@[order[j]], cells));
        }
    }
}

} // verus!
