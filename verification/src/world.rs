use vstd::prelude::*;
use std::collections::{HashMap, HashSet};
use std::collections::hash_map::Entry;
use instant::Instant;
use vstd::std_specs::iter::IteratorSpec;
use crate::body::{Bodies, BodiesIds, Body, BodyClass, BodyId, MAX_BODY_ID};
use crate::body::item::{BodyItem, BODY_ITEM_HALF_WIDTH, BODY_ITEM_HEIGHT};
use crate::body::player::{
    BodyPlayer, BODY_PLAYER_HALF_WIDTH, BODY_PLAYER_HEIGHT, COORD_LIMIT, clamp_coord, coord_ok,
    run_offset, run_speed,
};
use crate::cells::{Cells, cell_count};
use crate::clock::{clock_now, micros_since};
use crate::engine::{
    BLOCK_SIZE, Bounds, Direction, Event, EventClass, PositionUpdate, Rect,
    Rects, UpdateResults, body_ids, boxes_overlap, cell_index, get_bounds_intersection,
    out_of_world, out_of_world_events, terrain_corrected, terrain_push, update_correct_players,
    update_positions_typed,
};
use crate::grid::{
    Grid, LAST_REGION, Pair, PairId, REGION_SIZE, addressable, pair_id, region_set, regions_for,
    regions_wf, shares_region, uncut,
};

verus! {

/// Largest width and height of a world, in blocks: the world then spans
/// the regions from the origin up to the last one, each of which has an
/// id of its own.
pub const MAX_WORLD_BLOCKS: i32 = 0x7_FFF0;

/// The box of an item that lies at `(x, y)`.
pub open spec fn item_box(x: int, y: int) -> Bounds {
    crate::engine::box_around(x, y, BODY_ITEM_HALF_WIDTH as int, BODY_ITEM_HEIGHT as int)
}

/// A body may be created at `(x, y)`: the position lies in the
/// coordinate range.
pub open spec fn position_fits(x: int, y: int) -> bool {
    coord_ok(x) && coord_ok(y)
}

/// The edges of the box are in order and lie within the coordinate
/// range, widened by the size of a body.
pub open spec fn in_reach(bounds: Bounds) -> bool {
    &&& -COORD_LIMIT - BODY_PLAYER_HEIGHT <= bounds.min_x <= bounds.max_x <= COORD_LIMIT
        + BODY_PLAYER_HEIGHT
    &&& -COORD_LIMIT - BODY_PLAYER_HEIGHT <= bounds.min_y <= bounds.max_y <= COORD_LIMIT
        + BODY_PLAYER_HEIGHT
}

/// A world of this many blocks can be made.
pub open spec fn world_fits(width_blocks: int, height_blocks: int) -> bool {
    &&& 0 <= width_blocks <= MAX_WORLD_BLOCKS
    &&& 0 <= height_blocks <= MAX_WORLD_BLOCKS
    &&& cell_count(width_blocks, height_blocks) <= i32::MAX
}

/// Whether a world of this many blocks can be made.
pub fn world_fits_in(width_blocks: i32, height_blocks: i32) -> (fits: bool)
    ensures
        fits == world_fits(width_blocks as int, height_blocks as int),
{
    if width_blocks < 0 || width_blocks > MAX_WORLD_BLOCKS || height_blocks < 0 || height_blocks
        > MAX_WORLD_BLOCKS {
        return false;
    }
    assert(0 <= (width_blocks as int) * (height_blocks as int) <= 0x7_FFF0 * 0x7_FFF0)
        by (nonlinear_arith)
        requires
            0 <= width_blocks <= 0x7_FFF0,
            0 <= height_blocks <= 0x7_FFF0,
    ;
    assert(width_blocks == 0 || height_blocks == 0 ==> (width_blocks as int) * (
    height_blocks as int) == 0) by (nonlinear_arith);
    (width_blocks as i64) * (height_blocks as i64) <= i32::MAX as i64
}

/// Whether a body may be created at `(x, y)`.
pub fn position_fits_at(x: i32, y: i32) -> (fits: bool)
    ensures
        fits == position_fits(x as int, y as int),
{
    -COORD_LIMIT <= x && x <= COORD_LIMIT && -COORD_LIMIT <= y && y <= COORD_LIMIT
}

/// The player at the end of a tick of `elapsed` microseconds in which it
/// stayed in the world: moved, resolved against the terrain and settled,
/// with its position remembered for the next tick.
pub open spec fn player_after_tick(player: BodyPlayer, elapsed: u64, cells: &Cells) -> BodyPlayer {
    let last = terrain_corrected(player.integrated(elapsed), cells).settled();
    BodyPlayer { prev_x: last.x, prev_y: last.y, ..last }
}

/// The player leaves the world by its motion over `elapsed` microseconds.
pub open spec fn player_leaves(
    player: BodyPlayer,
    elapsed: u64,
    world_width: int,
    world_height: int,
) -> bool {
    out_of_world(player.integrated(elapsed).bounds(), world_width, world_height)
}

/// The tick leaves the player at another position than the one it had
/// at the end of the tick before.
pub open spec fn player_moved(player: BodyPlayer, elapsed: u64, cells: &Cells) -> bool {
    let last = terrain_corrected(player.integrated(elapsed), cells);
    last.x != last.prev_x || last.y != last.prev_y
}

/// The event, if any, that the contact of two bodies gives: a body that
/// touches a sensor is reported with the sensor as trigger, a player that
/// touches an item with the item as trigger, whichever of the two comes
/// first.
pub open spec fn contact_event(first: Rect, second: Rect) -> Option<Event> {
    if first.class == BodyClass::Sensor {
        Some(Event { class: EventClass::Sensor, body_id: second.id, trigger_id: first.id })
    } else if first.class == BodyClass::Item && second.class == BodyClass::Player {
        Some(Event { class: EventClass::Item, body_id: second.id, trigger_id: first.id })
    } else if second.class == BodyClass::Sensor {
        Some(Event { class: EventClass::Sensor, body_id: first.id, trigger_id: second.id })
    } else if second.class == BodyClass::Item && first.class == BodyClass::Player {
        Some(Event { class: EventClass::Item, body_id: first.id, trigger_id: second.id })
    } else {
        None
    }
}

/// The event of a contact does not depend on which of the two bodies
/// comes first, for bodies whose classes may collide.
pub proof fn lemma_contact_event_symmetric(first: Rect, second: Rect)
    requires
        crate::grid::compatible(first.class, second.class),
    ensures
        contact_event(first, second) == contact_event(second, first),
{
}

/// The players of `players` that stay in the world over a tick of
/// `elapsed` microseconds, each as the tick leaves it.
pub open spec fn players_after_tick(
    players: Map<BodyId, BodyPlayer>,
    elapsed: u64,
    world_width: int,
    world_height: int,
    cells: &Cells,
) -> Map<BodyId, BodyPlayer> {
    Map::new(
        |id: BodyId|
            players.contains_key(id) && !player_leaves(
                players[id],
                elapsed,
                world_width,
                world_height,
            ),
        |id: BodyId| player_after_tick(players[id], elapsed, cells),
    )
}

/// The events report, each once, the players of `players` that leave the
/// world, with no trigger.
pub open spec fn leaving_events(
    events: Seq<Event>,
    players: Map<BodyId, BodyPlayer>,
    elapsed: u64,
    world_width: int,
    world_height: int,
) -> bool {
    &&& events.no_duplicates()
    &&& forall|event: Event|
        events.contains(event) <==> (event.class == EventClass::OutOfWorld && event.trigger_id == 0
            && players.contains_key(event.body_id) && player_leaves(
            players[event.body_id],
            elapsed,
            world_width,
            world_height,
        ))
}

/// The events report, each once, the players of `players` that stay in
/// the world and whose box, after their motion, overlaps that of an item
/// of `items` with which they are registered in a common region, with
/// the item as trigger. Overlapping boxes share a region but where one of
/// them touches a region with the id of an unused slot.
pub open spec fn pickup_events(
    events: Seq<Event>,
    players: Map<BodyId, BodyPlayer>,
    items: Map<BodyId, BodyItem>,
    rects: Map<BodyId, Rect>,
    elapsed: u64,
    world_width: int,
    world_height: int,
) -> bool {
    &&& events.no_duplicates()
    &&& forall|event: Event|
        events.contains(event) <==> (event.class == EventClass::Item && players.contains_key(
            event.body_id,
        ) && !player_leaves(players[event.body_id], elapsed, world_width, world_height)
            && items.contains_key(event.trigger_id) && shares_region(
            players[event.body_id].integrated(elapsed).bounds(),
            rects[event.trigger_id].bounds,
        ) && boxes_overlap(
            players[event.body_id].integrated(elapsed).bounds(),
            rects[event.trigger_id].bounds,
        ))
}

/// The updates report, each once, the players of `players` that stay in
/// the world and that the tick leaves at another position than the one
/// they had, with the new position.
pub open spec fn position_updates(
    updates: Seq<PositionUpdate>,
    players: Map<BodyId, BodyPlayer>,
    elapsed: u64,
    world_width: int,
    world_height: int,
    cells: &Cells,
) -> bool {
    &&& updates.no_duplicates()
    &&& forall|update: PositionUpdate|
        updates.contains(update) <==> (players.contains_key(update.id) && !player_leaves(
            players[update.id],
            elapsed,
            world_width,
            world_height,
        ) && player_moved(players[update.id], elapsed, cells) && update.x == player_after_tick(
            players[update.id],
            elapsed,
            cells,
        ).x && update.y == player_after_tick(players[update.id], elapsed, cells).y)
}

/// What a tick of `elapsed` microseconds makes of the players of the
/// world `before`, and what it reports.
pub open spec fn ticked(before: World, after: World, results: UpdateResults, elapsed: u64) -> bool {
    &&& after.players() == players_after_tick(
        before.players().remove_keys(before.pending()),
        elapsed,
        before.width(),
        before.height(),
        &before.cell_store(),
    )
    &&& exists|split: int|
        0 <= split <= results.events@.len() && #[trigger] leaving_events(
            results.events@.take(split),
            before.players().remove_keys(before.pending()),
            elapsed,
            before.width(),
            before.height(),
        ) && pickup_events(
            results.events@.skip(split),
            before.players().remove_keys(before.pending()),
            before.items().remove_keys(before.pending()),
            before.rects(),
            elapsed,
            before.width(),
            before.height(),
        )
    &&& position_updates(
        results.positions_updates@,
        before.players().remove_keys(before.pending()),
        elapsed,
        before.width(),
        before.height(),
        &before.cell_store(),
    )
}

/// The contacts that the detection finds among the bodies left after the
/// motion are the pickups of the tick.
proof fn lemma_pickups(
    contacts: Seq<Event>,
    before: Map<BodyId, BodyPlayer>,
    stayed: Map<BodyId, BodyPlayer>,
    items: Map<BodyId, BodyItem>,
    old_rects: Map<BodyId, Rect>,
    rects: Map<BodyId, Rect>,
    elapsed: u64,
    w: int,
    h: int,
)
    requires
        forall|id: BodyId|
            stayed.contains_key(id) <==> before.contains_key(id) && !player_leaves(
                before[id],
                elapsed,
                w,
                h,
            ),
        forall|id: BodyId|
            stayed.contains_key(id) ==> rects[id].bounds == before[id].integrated(
                elapsed,
            ).bounds(),
        forall|id: BodyId| items.contains_key(id) ==> rects[id].bounds == old_rects[id].bounds,
        contacts.no_duplicates(),
        forall|event: Event| contacts.contains(event) <==> is_pickup(event, stayed, items, rects),
    ensures
        pickup_events(contacts, before, items, old_rects, elapsed, w, h),
{
}

/// The coordinates of column `x`, in the rows `min_y` and `max_y`, on
/// which a block may be placed.
pub open spec fn ring_ends(cells: &Cells, x: int, min_y: int, max_y: int) -> Seq<i32> {
    (if cells.buildable_at(x, min_y) {
        seq![x as i32, min_y as i32]
    } else {
        Seq::empty()
    }) + (if cells.buildable_at(x, max_y) {
        seq![x as i32, max_y as i32]
    } else {
        Seq::empty()
    })
}

/// The coordinates of row `y`, in the columns `min_x` and `max_x`, on
/// which a block may be placed.
pub open spec fn ring_sides(cells: &Cells, y: int, min_x: int, max_x: int) -> Seq<i32> {
    (if cells.buildable_at(min_x, y) {
        seq![min_x as i32, y as i32]
    } else {
        Seq::empty()
    }) + (if cells.buildable_at(max_x, y) {
        seq![max_x as i32, y as i32]
    } else {
        Seq::empty()
    })
}

/// The buildable cells of the top and bottom row, over the first `count`
/// columns from `min_x` on.
pub open spec fn ring_rows(cells: &Cells, min_x: int, count: nat, min_y: int, max_y: int) -> Seq<
    i32,
>
    decreases count,
{
    if count == 0 {
        Seq::empty()
    } else {
        ring_rows(cells, min_x, (count - 1) as nat, min_y, max_y) + ring_ends(
            cells,
            min_x + count - 1,
            min_y,
            max_y,
        )
    }
}

/// The buildable cells of the left and right column, over the first
/// `count` rows from `first_y` on.
pub open spec fn ring_columns(
    cells: &Cells,
    first_y: int,
    count: nat,
    min_x: int,
    max_x: int,
) -> Seq<i32>
    decreases count,
{
    if count == 0 {
        Seq::empty()
    } else {
        ring_columns(cells, first_y, (count - 1) as nat, min_x, max_x) + ring_sides(
            cells,
            first_y + count - 1,
            min_x,
            max_x,
        )
    }
}

/// The coordinates, x before y, of the cells around the box on which a
/// block may be placed: the ring of cells one cell beyond those that the
/// box touches, its top and bottom row column by column, then its sides
/// row by row.
pub open spec fn build_ring(cells: &Cells, bounds: Bounds) -> Seq<i32> {
    let min_x = crate::engine::cell_of(bounds.min_x as int) - 1;
    let max_x = crate::engine::cell_of(bounds.max_x as int) + 1;
    let min_y = crate::engine::cell_of(bounds.min_y as int) - 1;
    let max_y = crate::engine::cell_of(bounds.max_y as int) + 1;
    ring_rows(cells, min_x, (max_x - min_x + 1) as nat, min_y, max_y) + ring_columns(
        cells,
        min_y + 1,
        (max_y - min_y - 1) as nat,
        min_x,
        max_x,
    )
}

/// The event, if any, of a pair that the grid holds.
pub open spec fn pair_event(rects: Map<BodyId, Rect>, pair: Pair) -> Option<Event> {
    if boxes_overlap(rects[pair.id1].bounds, rects[pair.id2].bounds) {
        contact_event(rects[pair.id1], rects[pair.id2])
    } else {
        None
    }
}

/// The event reports a player whose box overlaps that of an item with
/// which it is registered in a common region.
pub open spec fn is_pickup(
    event: Event,
    players: Map<BodyId, BodyPlayer>,
    items: Map<BodyId, BodyItem>,
    rects: Map<BodyId, Rect>,
) -> bool {
    &&& event.class == EventClass::Item
    &&& players.contains_key(event.body_id)
    &&& items.contains_key(event.trigger_id)
    &&& shares_region(rects[event.body_id].bounds, rects[event.trigger_id].bounds)
    &&& boxes_overlap(rects[event.body_id].bounds, rects[event.trigger_id].bounds)
}

/// The event, if any, of two bodies of a pair: none unless their boxes
/// overlap on both axes.
pub fn detect_contact(rect1: &Rect, rect2: &Rect) -> (event: Option<Event>)
    requires
        i32::MIN <= crate::engine::overlap_x(rect1.bounds, rect2.bounds) <= i32::MAX,
        i32::MIN <= crate::engine::overlap_y(rect1.bounds, rect2.bounds) <= i32::MAX,
    ensures
        event == (if boxes_overlap(rect1.bounds, rect2.bounds) {
            contact_event(*rect1, *rect2)
        } else {
            None
        }),
{
    let intersection = get_bounds_intersection(&rect1.bounds, &rect2.bounds);
    if intersection.x <= 0 || intersection.y <= 0 {
        return None;
    }
    match rect1.class {
        BodyClass::Sensor => {
            return Some(
                Event { class: EventClass::Sensor, body_id: rect2.id, trigger_id: rect1.id },
            );
        },
        BodyClass::Item => match rect2.class {
            BodyClass::Player => {
                return Some(
                    Event { class: EventClass::Item, body_id: rect2.id, trigger_id: rect1.id },
                );
            },
            _ => {},
        },
        _ => {},
    }
    match rect2.class {
        BodyClass::Sensor => {
            return Some(
                Event { class: EventClass::Sensor, body_id: rect1.id, trigger_id: rect2.id },
            );
        },
        BodyClass::Item => match rect1.class {
            BodyClass::Player => {
                return Some(
                    Event { class: EventClass::Item, body_id: rect1.id, trigger_id: rect2.id },
                );
            },
            _ => {},
        },
        _ => {},
    }
    None
}

/// The world: the cell store with its blocks, the items and players with
/// their collision records, the broadphase grid over the records, and
/// the bodies that await removal.
pub struct World {
    width: i32,
    height: i32,
    next_body_id: u32,
    last_update: Option<Instant>,
    cells: Cells,
    grid: Grid,
    ids: BodiesIds,
    rects: Rects,
    items: Bodies<BodyItem>,
    players: Bodies<BodyPlayer>,
    ids_to_remove: BodiesIds,
}

impl World {
    /// Width of the world in units.
    pub closed spec fn width(&self) -> int {
        self.width as int
    }

    /// Height of the world in units.
    pub closed spec fn height(&self) -> int {
        self.height as int
    }

    /// The cell store.
    pub closed spec fn cell_store(&self) -> Cells {
        self.cells
    }

    /// The players by id.
    pub closed spec fn players(&self) -> Map<BodyId, BodyPlayer> {
        self.players@
    }

    /// The items by id.
    pub closed spec fn items(&self) -> Map<BodyId, BodyItem> {
        self.items@
    }

    /// The collision records of the players and items by id.
    pub closed spec fn rects(&self) -> Map<BodyId, Rect> {
        self.rects@
    }

    /// The ids whose bodies the next tick removes first.
    pub closed spec fn pending(&self) -> Set<BodyId> {
        self.ids_to_remove@
    }

    /// The id that was given out last.
    pub closed spec fn last_id(&self) -> int {
        self.next_body_id as int
    }

    /// The broadphase grid.
    pub closed spec fn grid(&self) -> Grid {
        self.grid
    }

    /// No tick has read the clock yet.
    pub closed spec fn awaits_first_tick(&self) -> bool {
        self.last_update is None
    }

    /// The grid holds `id` in the regions that its box touches.
    pub closed spec fn fresh(&self, id: BodyId) -> bool {
        self.grid.members()[id].regions == region_set(regions_for(self.rects@[id].bounds))
    }

    /// What holds of the parts of the world at every step of a tick: the
    /// world is as large as its cell store; every body is a player or an
    /// item, has its record and is registered in the grid, whose regions
    /// the record names; the record of a player holds the box of the
    /// player; an item lies where regions have ids, and the grid holds it
    /// in the regions that it touches.
    pub closed spec fn linked(&self) -> bool {
        &&& self.cells.wf()
        &&& 0 <= self.cells@.width <= MAX_WORLD_BLOCKS
        &&& 0 <= self.cells@.height <= MAX_WORLD_BLOCKS
        &&& self.width == self.cells@.width * BLOCK_SIZE
        &&& self.height == self.cells@.height * BLOCK_SIZE
        &&& self.next_body_id <= MAX_BODY_ID
        &&& self.ids@ == self.rects@.dom()
        &&& self.grid.wf()
        &&& self.grid.synced(self.rects@)
        &&& self.grid.members().dom() == self.rects@.dom()
        &&& forall|id: BodyId| #[trigger]
            self.rects@.contains_key(id) ==> 0 < id <= self.next_body_id && (
            self.players@.contains_key(id) || self.items@.contains_key(id))
        &&& forall|id: BodyId| #[trigger]
            self.players@.contains_key(id) ==> self.rects@.contains_key(id)
                && !self.items@.contains_key(id) && self.players@[id].wf() && self.rects@[id].class
                == BodyClass::Player && self.rects@[id].bounds == self.players@[id].bounds()
        &&& forall|id: BodyId| #[trigger]
            self.items@.contains_key(id) ==> self.rects@.contains_key(id) && self.rects@[id].class
                == BodyClass::Item && in_reach(self.rects@[id].bounds) && self.fresh(id)
                && !self.rects@[id].is_updated
    }

    /// What holds between ticks: the parts are linked; no record is marked
    /// as changed; every player stands where it stood at the end of the
    /// last tick, and is grounded, jumping or falling, or is held by the
    /// grid in the regions that it touches.
    pub closed spec fn wf(&self) -> bool {
        &&& self.linked()
        &&& forall|id: BodyId| #[trigger]
            self.players@.contains_key(id) ==> !self.rects@[id].is_updated && self.players@[id].prev_x
                == self.players@[id].x && self.players@[id].prev_y == self.players@[id].y && (
            self.players@[id].is_on_ground || self.players@[id].is_jump || self.players@[id].is_fall
                || (in_reach(self.rects@[id].bounds) && self.fresh(id)))
    }

    /// A world between ticks has its bodies in order: every player is
    /// well formed, and has a record that holds its box.
    pub proof fn lemma_bodies(&self, id: BodyId)
        requires
            self.wf(),
        ensures
            self.cell_store().wf(),
            self.width() == self.cell_store()@.width * BLOCK_SIZE,
            self.height() == self.cell_store()@.height * BLOCK_SIZE,
            self.rects().dom() == self.players().dom().union(self.items().dom()),
            self.players().dom().disjoint(self.items().dom()),
            self.rects().contains_key(id) ==> 0 < id <= self.last_id(),
            self.players().contains_key(id) ==> self.players()[id].wf() && self.rects()[id].bounds
                == self.players()[id].bounds() && self.rects()[id].class == BodyClass::Player
                && self.players()[id].prev_x == self.players()[id].x && self.players()[id].prev_y
                == self.players()[id].y,
            self.items().contains_key(id) ==> self.rects()[id].class == BodyClass::Item,
            self.rects().contains_key(id) ==> self.rects()[id].id == id
                && !self.rects()[id].is_updated,
    {
        assert(self.rects().dom() =~= self.players().dom().union(self.items().dom()));
    }

    /// A body in the world whose box is smaller than a region is
    /// registered in every region that its box touches, so that it is
    /// registered in a common region with every such body whose box
    /// overlaps or touches its own.
    pub proof fn lemma_in_world_uncut(&self, bounds: Bounds)
        requires
            self.wf(),
            addressable(bounds),
            !out_of_world(bounds, self.width(), self.height()),
        ensures
            uncut(bounds),
            forall|other: Bounds|
                uncut(other) && crate::engine::overlap_x(bounds, other) >= 0
                    && crate::engine::overlap_y(bounds, other) >= 0 ==> #[trigger] shares_region(
                    bounds,
                    other,
                ),
    {
        assert(self.width <= MAX_WORLD_BLOCKS * BLOCK_SIZE);
        assert(bounds.max_x < (LAST_REGION + 1) * REGION_SIZE);
        crate::grid::lemma_uncut(bounds);
        assert forall|other: Bounds|
            uncut(other) && crate::engine::overlap_x(bounds, other) >= 0
                && crate::engine::overlap_y(bounds, other) >= 0 implies #[trigger] shares_region(
            bounds,
            other,
        ) by {
            crate::grid::lemma_overlap_shares_region(bounds, other);
        }
    }

    /// An empty world of `width_blocks` by `height_blocks` blocks.
    pub fn new(width_blocks: i32, height_blocks: i32) -> (world: World)
        requires
            world_fits(width_blocks as int, height_blocks as int),
        ensures
            world.wf(),
            world.width() == width_blocks * BLOCK_SIZE,
            world.height() == height_blocks * BLOCK_SIZE,
            world.cell_store()@.width == width_blocks,
            world.cell_store()@.height == height_blocks,
            world.cell_store()@.busy == Set::<(int, int)>::empty(),
            world.cell_store()@.blocks == Set::<(int, int)>::empty(),
            world.players() == Map::<BodyId, BodyPlayer>::empty(),
            world.items() == Map::<BodyId, BodyItem>::empty(),
            world.rects() == Map::<BodyId, Rect>::empty(),
            world.pending() == Set::<BodyId>::empty(),
            world.last_id() == 0,
            world.awaits_first_tick(),
    {
        let world = World {
            width: width_blocks * BLOCK_SIZE,
            height: height_blocks * BLOCK_SIZE,
            next_body_id: 0,
            last_update: None,
            cells: Cells::new(width_blocks, height_blocks),
            grid: Grid::new(),
            ids: HashSet::new(),
            rects: HashMap::new(),
            items: HashMap::new(),
            players: HashMap::new(),
            ids_to_remove: HashSet::new(),
        };
        proof {
            assert(world.grid.members().dom() =~= world.rects@.dom());
            assert(world.ids@ =~= world.rects@.dom());
        }
        world
    }

    /// The cell store.
    pub fn cells(&self) -> (cells: &Cells)
        ensures
            *cells == self.cell_store(),
    {
        &self.cells
    }

    /// The player with the given id, if there is one.
    pub fn player(&self, id: BodyId) -> (player: Option<BodyPlayer>)
        ensures
            player == (if self.players().contains_key(id) {
                Some(self.players()[id])
            } else {
                None
            }),
    {
        broadcast use vstd::std_specs::hash::group_hash_axioms;

        match self.players.get(&id) {
            Some(player) => Some(*player),
            None => None,
        }
    }

    /// The item with the given id, if there is one.
    pub fn item(&self, id: BodyId) -> (item: Option<BodyItem>)
        ensures
            item == (if self.items().contains_key(id) {
                Some(self.items()[id])
            } else {
                None
            }),
    {
        broadcast use vstd::std_specs::hash::group_hash_axioms;

        match self.items.get(&id) {
            Some(item) => Some(*item),
            None => None,
        }
    }

    /// The collision record of the body with the given id, if there is
    /// one.
    pub fn rect(&self, id: BodyId) -> (rect: Option<Rect>)
        ensures
            rect == (if self.rects().contains_key(id) {
                Some(self.rects()[id])
            } else {
                None
            }),
    {
        broadcast use vstd::std_specs::hash::group_hash_axioms;

        match self.rects.get(&id) {
            Some(rect) => Some(*rect),
            None => None,
        }
    }

    /// The id that was given out last; zero before the first.
    pub fn last_body_id(&self) -> (id: BodyId)
        ensures
            id == self.last_id(),
    {
        self.next_body_id
    }

    /// The next id of the counter.
    fn next_body_id(&mut self) -> (id: BodyId)
        requires
            old(self).next_body_id < MAX_BODY_ID,
        ensures
            id == old(self).next_body_id + 1,
            *final(self) == (World { next_body_id: id, ..*old(self) }),
    {
        self.next_body_id = self.next_body_id + 1;
        self.next_body_id
    }

    /// Creates a block in the cell `(x, y)` and returns its id, which is
    /// the number of the cell, counted from one row by row. Outside the
    /// cell store no block is created, and the id is zero.
    pub fn block_create(&mut self, x: i32, y: i32) -> (id: BodyId)
        requires
            old(self).wf(),
        ensures
            final(self).wf(),
            final(self).same_bodies(*old(self)),
            final(self).cell_store()@.width == old(self).cell_store()@.width,
            final(self).cell_store()@.height == old(self).cell_store()@.height,
            old(self).cell_store().in_bounds(x as int, y as int) ==> id == y * old(self).cell_store()@.width + x + 1 && final(self).cell_store()@.busy == old(self).cell_store()@.busy.insert((x as int, y as int)) && final(self).cell_store()@.blocks
                == old(self).cell_store()@.blocks.insert((x as int, y as int)),
            !old(self).cell_store().in_bounds(x as int, y as int) ==> id == 0 && final(self).cell_store()@ == old(self).cell_store()@,
    {
        let width = self.cells.width();
        let height = self.cells.height();
        if x < 0 || x >= width || y < 0 || y >= height {
            return 0;
        }
        proof {
            self.cells.lemma_view();
            assert(0 <= y * width + x < width * height) by (nonlinear_arith)
                requires
                    0 <= x < width,
                    0 <= y < height,
            ;
        }
        self.cells.set_block(x, y, true);
        let id = y * width + x + 1;
        id as u32
    }

    /// Removes the block with the given id; an id that no cell has is
    /// ignored.
    pub fn block_remove(&mut self, id: BodyId)
        requires
            old(self).wf(),
        ensures
            final(self).wf(),
            final(self).same_bodies(*old(self)),
            final(self).cell_store()@.width == old(self).cell_store()@.width,
            final(self).cell_store()@.height == old(self).cell_store()@.height,
            0 < id <= cell_count(old(self).cell_store()@.width, old(self).cell_store()@.height)
                ==> final(self).cell_store()@.busy == old(self).cell_store()@.busy.remove(
                block_cell(id, old(self).cell_store()@.width),
            ) && final(self).cell_store()@.blocks == old(self).cell_store()@.blocks.remove(
                block_cell(id, old(self).cell_store()@.width),
            ),
            !(0 < id <= cell_count(old(self).cell_store()@.width, old(self).cell_store()@.height))
                ==> final(self).cell_store()@ == old(self).cell_store()@,
    {
        let width = self.cells.width();
        let height = self.cells.height();
        if id == 0 || width <= 0 || height <= 0 {
            return ;
        }
        proof {
            self.cells.lemma_view();
            assert(0 < width * height) by (nonlinear_arith)
                requires
                    0 < width,
                    0 < height,
            ;
        }
        let count = width * height;
        if id > count as u32 {
            return ;
        }
        let index = id as i32 - 1;
        let x = index % width;
        let y = index / width;
        proof {
            assert(0 <= (index as int) / (width as int) < height) by (nonlinear_arith)
                requires
                    0 <= index < width * height,
                    0 < width,
            ;
        }
        self.cells.set_block(x, y, false);
    }

    /// Sets the horizontal intent of the player `id`, if there is one.
    pub fn player_run(&mut self, id: BodyId, direction: Direction)
        requires
            old(self).wf(),
        ensures
            final(self).wf(),
            final(self).same_but_players(*old(self)),
            final(self).players() == (if old(self).players().contains_key(id) {
                old(self).players().insert(id, old(self).players()[id].ran(direction))
            } else {
                old(self).players()
            }),
    {
        broadcast use vstd::std_specs::hash::group_hash_axioms;

        if !self.players.contains_key(&id) {
            return ;
        }
        match self.players.entry(id) {
            Entry::Occupied(mut entry) => {
                entry.get_mut().run(direction);
            },
            Entry::Vacant(_vacant) => {
                assert(false);
            },
        }
        proof {
            assert(self.players@.dom() =~= old(self).players@.dom());
        }
    }

    /// Lets the player `id` jump, if there is one and it stands on the
    /// ground.
    pub fn player_jump(&mut self, id: BodyId)
        requires
            old(self).wf(),
        ensures
            final(self).wf(),
            final(self).same_but_players(*old(self)),
            final(self).players() == (if old(self).players().contains_key(id) {
                old(self).players().insert(id, old(self).players()[id].jumped())
            } else {
                old(self).players()
            }),
    {
        broadcast use vstd::std_specs::hash::group_hash_axioms;

        if !self.players.contains_key(&id) {
            return ;
        }
        match self.players.entry(id) {
            Entry::Occupied(mut entry) => {
                entry.get_mut().jump();
            },
            Entry::Vacant(_vacant) => {
                assert(false);
            },
        }
        proof {
            assert(self.players@.dom() =~= old(self).players@.dom());
        }
    }

    /// Asks for the body `id` to be removed; the next tick does it first.
    pub fn remove(&mut self, id: BodyId)
        requires
            old(self).wf(),
        ensures
            final(self).wf(),
            final(self).cell_store() == old(self).cell_store(),
            final(self).players() == old(self).players(),
            final(self).items() == old(self).items(),
            final(self).rects() == old(self).rects(),
            final(self).last_id() == old(self).last_id(),
            final(self).width() == old(self).width(),
            final(self).height() == old(self).height(),
            final(self).awaits_first_tick() == old(self).awaits_first_tick(),
            final(self).pending() == old(self).pending().insert(id),
    {
        broadcast use vstd::std_specs::hash::group_hash_axioms;

        self.ids_to_remove.insert(id);
    }

    /// Creates an item at `(x, y)` and returns its id, the next of the
    /// counter.
    pub fn item_create(&mut self, x: i32, y: i32) -> (id: BodyId)
        requires
            old(self).wf(),
            old(self).last_id() < MAX_BODY_ID,
            position_fits(x as int, y as int),
        ensures
            final(self).wf(),
            id == old(self).last_id() + 1,
            final(self).last_id() == id,
            final(self).cell_store() == old(self).cell_store(),
            final(self).width() == old(self).width(),
            final(self).height() == old(self).height(),
            final(self).awaits_first_tick() == old(self).awaits_first_tick(),
            final(self).pending() == old(self).pending(),
            final(self).players() == old(self).players(),
            final(self).items() == old(self).items().insert(
                id,
                BodyItem { x, y, move_dir_y: 0, is_on_ground: false },
            ),
            final(self).rects().dom() == old(self).rects().dom().insert(id),
            forall|other: BodyId|
                old(self).rects().contains_key(other) ==> #[trigger] final(self).rects()[other]
                    == old(self).rects()[other],
            final(self).rects()[id].id == id,
            final(self).rects()[id].class == BodyClass::Item,
            final(self).rects()[id].bounds == item_box(x as int, y as int),
            !final(self).rects()[id].is_updated,
    {
        broadcast use vstd::std_specs::hash::group_hash_axioms;

        let id = self.next_body_id();
        self.rects.insert(
            id,
            Rect::new(id, BodyClass::Item, x, y, BODY_ITEM_HALF_WIDTH, BODY_ITEM_HEIGHT),
        );
        proof {
            assert(!old(self).rects@.contains_key(id));
            assert(!old(self).players@.contains_key(id));
            assert(!old(self).items@.contains_key(id));
        }
        self.grid.add(id, &mut self.rects);
        self.items.insert(id, BodyItem::new(x, y));
        self.ids.insert(id);
        proof {
            assert(self.grid.members().dom() =~= self.rects@.dom());
            assert(self.ids@ =~= self.rects@.dom());
            assert(self.rects@.dom() =~= old(self).rects@.dom().insert(id));
        }
        id
    }

    /// Creates a player at `(x, y)` and returns its id, the next of the
    /// counter.
    pub fn player_create(&mut self, x: i32, y: i32) -> (id: BodyId)
        requires
            old(self).wf(),
            old(self).last_id() < MAX_BODY_ID,
            position_fits(x as int, y as int),
        ensures
            final(self).wf(),
            id == old(self).last_id() + 1,
            final(self).last_id() == id,
            final(self).cell_store() == old(self).cell_store(),
            final(self).width() == old(self).width(),
            final(self).height() == old(self).height(),
            final(self).awaits_first_tick() == old(self).awaits_first_tick(),
            final(self).pending() == old(self).pending(),
            final(self).items() == old(self).items(),
            final(self).players() == old(self).players().insert(
                id,
                BodyPlayer {
                    x,
                    y,
                    prev_x: x,
                    prev_y: y,
                    force_x: 0,
                    last_ground_y: y,
                    is_jump: false,
                    jump_timer: 0,
                    jump_x_decreased: false,
                    jump_x_setted: false,
                    is_fall: false,
                    fall_timer: 0,
                    move_dir_y: 0,
                    is_on_ground: false,
                    move_state: Direction::Idle,
                    current_tick_corrected: false,
                },
            ),
            final(self).rects().dom() == old(self).rects().dom().insert(id),
            forall|other: BodyId|
                old(self).rects().contains_key(other) ==> #[trigger] final(self).rects()[other]
                    == old(self).rects()[other],
            final(self).rects()[id].id == id,
            final(self).rects()[id].class == BodyClass::Player,
            final(self).rects()[id].bounds == BodyPlayer::box_at(x as int, y as int),
            !final(self).rects()[id].is_updated,
    {
        broadcast use vstd::std_specs::hash::group_hash_axioms;

        let id = self.next_body_id();
        self.rects.insert(
            id,
            Rect::new(id, BodyClass::Player, x, y, BODY_PLAYER_HALF_WIDTH, BODY_PLAYER_HEIGHT),
        );
        proof {
            assert(!old(self).rects@.contains_key(id));
            assert(!old(self).players@.contains_key(id));
            assert(!old(self).items@.contains_key(id));
        }
        self.grid.add(id, &mut self.rects);
        self.players.insert(id, BodyPlayer::new(x, y));
        self.ids.insert(id);
        proof {
            assert(self.grid.members().dom() =~= self.rects@.dom());
            assert(self.ids@ =~= self.rects@.dom());
            assert(self.rects@.dom() =~= old(self).rects@.dom().insert(id));
        }
        id
    }

    /// Removes the bodies that await removal: each leaves the grid and
    /// the maps of the world. Ids without a body are passed over.
    fn step_clear(&mut self)
        requires
            old(self).linked(),
        ensures
            final(self).linked(),
            final(self).same_frame(*old(self)),
            final(self).ids_to_remove@ == Set::<BodyId>::empty(),
            final(self).rects@ == old(self).rects@.remove_keys(old(self).ids_to_remove@),
            final(self).players@ == old(self).players@.remove_keys(old(self).ids_to_remove@),
            final(self).items@ == old(self).items@.remove_keys(old(self).ids_to_remove@),
            forall|id: BodyId| #[trigger]
                final(self).rects@.contains_key(id) ==> final(self).grid.members()[id] == old(self).grid.members()[id],
    {
        broadcast use vstd::std_specs::hash::group_hash_axioms;

        let ghost full: Seq<BodyId> = self.ids_to_remove.iter().remaining().unref();
        proof {
            assert(old(self).rects@.remove_keys(full.take(0).to_set()) =~= old(self).rects@);
            assert(old(self).players@.remove_keys(full.take(0).to_set()) =~= old(self).players@);
            assert(old(self).items@.remove_keys(full.take(0).to_set()) =~= old(self).items@);
        }
        for id in it: self.ids_to_remove.iter()
            invariant
                it.seq().unref() == full,
                full.to_set() == old(self).ids_to_remove@,
                self.ids_to_remove@ == old(self).ids_to_remove@,
                self.linked(),
                self.same_frame(*old(self)),
                self.rects@ == old(self).rects@.remove_keys(full.take(it.index()).to_set()),
                self.players@ == old(self).players@.remove_keys(full.take(it.index()).to_set()),
                self.items@ == old(self).items@.remove_keys(full.take(it.index()).to_set()),
                forall|x: BodyId| #[trigger]
                    self.rects@.contains_key(x) ==> self.grid.members()[x] == old(self).grid.members()[x],
        {
            let ghost gone = full.take(it.index()).to_set();
            let ghost rects_before = self.rects@;
            let ghost members_before = self.grid.members();
            proof {
                assert(full.take(it.index() + 1) =~= full.take(it.index()).push(*id));
                vstd::seq_lib::seq_to_set_is_finite(full.take(it.index()));
                assert(full.take(it.index()).push(*id).to_set() =~= gone.insert(*id)) by {
                    vstd::seq_lib::lemma_seq_contains_after_push(full.take(it.index()), *id, *id);
                    assert forall|x: BodyId|
                        full.take(it.index()).push(*id).to_set().contains(x) <==> gone.insert(
                            *id,
                        ).contains(x) by {
                        vstd::seq_lib::lemma_seq_contains_after_push(
                            full.take(it.index()),
                            *id,
                            x,
                        );
                    }
                }
            }
            match self.rects.remove(id) {
                Some(rect) => {
                    match rect.class {
                        BodyClass::Player => {
                            self.players.remove(id);
                        },
                        BodyClass::Item => {
                            self.items.remove(id);
                        },
                        _ => {
                            assert(false);
                        },
                    }
                    self.grid.remove(&rect);
                    self.ids.remove(id);
                    proof {
                        assert(self.grid.members().dom() =~= self.rects@.dom());
                        assert(self.ids@ =~= self.rects@.dom());
                        assert(self.grid.synced(self.rects@));
                        assert forall|x: BodyId| #[trigger]
                            self.rects@.contains_key(x) implies 0 < x <= self.next_body_id && (
                        self.players@.contains_key(x) || self.items@.contains_key(x)) by {
                            assert(rects_before.contains_key(x));
                        }
                        assert forall|x: BodyId| #[trigger]
                            self.players@.contains_key(x) implies self.rects@.contains_key(x)
                            && !self.items@.contains_key(x) && self.players@[x].wf()
                            && self.rects@[x].class == BodyClass::Player && self.rects@[x].bounds
                            == self.players@[x].bounds() by {
                            assert(rects_before.contains_key(x));
                        }
                        assert forall|x: BodyId| #[trigger]
                            self.items@.contains_key(x) implies self.rects@.contains_key(x)
                            && self.rects@[x].class == BodyClass::Item && in_reach(
                            self.rects@[x].bounds,
                        ) && self.fresh(x) && !self.rects@[x].is_updated by {
                            assert(rects_before.contains_key(x));
                            assert(self.grid.members()[x] == members_before[x]);
                        }
                        assert(self.linked());
                        assert(self.rects@ =~= old(self).rects@.remove_keys(gone.insert(*id)));
                        assert(self.players@ =~= old(self).players@.remove_keys(
                            gone.insert(*id),
                        ));
                        assert(self.items@ =~= old(self).items@.remove_keys(gone.insert(*id)));
                    }
                },
                None => {
                    proof {
                        assert(self.rects@ =~= rects_before);
                        assert(self.rects@ =~= old(self).rects@.remove_keys(gone.insert(*id)));
                        assert(self.players@ =~= old(self).players@.remove_keys(
                            gone.insert(*id),
                        ));
                        assert(self.items@ =~= old(self).items@.remove_keys(gone.insert(*id)));
                    }
                },
            }
        }
        proof {
            assert(full.take(full.len() as int) =~= full);
        }
        self.ids_to_remove = HashSet::new();
    }

    /// Brings the grid up to date with every record that is marked as
    /// changed.
    fn step_broadphase(&mut self)
        requires
            old(self).linked(),
            forall|id: BodyId| #[trigger]
                old(self).rects@.contains_key(id) ==> (if old(self).rects@[id].is_updated {
                    in_reach(old(self).rects@[id].bounds)
                } else {
                    old(self).fresh(id)
                }),
        ensures
            final(self).linked(),
            final(self).same_frame(*old(self)),
            final(self).players@ == old(self).players@,
            final(self).items@ == old(self).items@,
            final(self).ids_to_remove@ == old(self).ids_to_remove@,
            final(self).rects@.dom() == old(self).rects@.dom(),
            forall|id: BodyId| #[trigger]
                final(self).rects@.contains_key(id) ==> final(self).rects@[id].same_body(
                    old(self).rects@[id],
                ) && !final(self).rects@[id].is_updated && final(self).fresh(id),
    {
        broadcast use vstd::std_specs::hash::group_hash_axioms;

        let ghost full: Seq<BodyId> = self.ids.iter().remaining().unref();
        proof {
            assert forall|j: int| 0 <= j < full.len() implies (if self.rects@[#[trigger] full[j]].is_updated {
                in_reach(self.rects@[full[j]].bounds)
            } else {
                self.fresh(full[j])
            }) by {
                assert(full.to_set().contains(full[j]));
                assert(self.rects@.contains_key(full[j]));
            }
        }
        for id in it: self.ids.iter()
            invariant
                it.seq().unref() == full,
                full.to_set() == old(self).rects@.dom(),
                full.no_duplicates(),
                self.ids@ == old(self).ids@,
                self.linked(),
                self.same_frame(*old(self)),
                self.players@ == old(self).players@,
                self.items@ == old(self).items@,
                self.ids_to_remove@ == old(self).ids_to_remove@,
                self.rects@.dom() == old(self).rects@.dom(),
                forall|x: BodyId| #[trigger]
                    self.rects@.contains_key(x) ==> self.rects@[x].same_body(old(self).rects@[x]),
                forall|j: int|
                    0 <= j < it.index() ==> !self.rects@[#[trigger] full[j]].is_updated
                        && self.fresh(full[j]),
                forall|j: int|
                    it.index() <= j < full.len() ==> (if self.rects@[#[trigger] full[j]].is_updated {
                        in_reach(self.rects@[full[j]].bounds)
                    } else {
                        self.fresh(full[j])
                    }),
        {
            let ghost rects_before = self.rects@;
            let ghost members_before = self.grid.members();
            proof {
                assert(full.to_set().contains(full[it.index()]));
                assert(self.rects@.contains_key(*id));
            }
            self.grid.update(*id, &mut self.rects);
            proof {
                assert(self.grid.members().dom() =~= self.rects@.dom());
                assert forall|x: BodyId| #[trigger] self.rects@.contains_key(x) implies 0 < x
                    <= self.next_body_id && (self.players@.contains_key(x)
                    || self.items@.contains_key(x)) by {
                    assert(rects_before.contains_key(x));
                }
                assert forall|x: BodyId| #[trigger]
                    self.players@.contains_key(x) implies self.rects@.contains_key(x)
                    && !self.items@.contains_key(x) && self.players@[x].wf()
                    && self.rects@[x].class == BodyClass::Player && self.rects@[x].bounds
                    == self.players@[x].bounds() by {
                    assert(rects_before.contains_key(x));
                }
                assert forall|x: BodyId| #[trigger]
                    self.items@.contains_key(x) implies self.rects@.contains_key(x)
                    && self.rects@[x].class == BodyClass::Item && in_reach(
                    self.rects@[x].bounds,
                ) && self.fresh(x) && !self.rects@[x].is_updated by {
                    assert(rects_before.contains_key(x));
                    if x != *id {
                        assert(self.grid.members()[x] == members_before[x]);
                    }
                }
                assert forall|j: int| 0 <= j < it.index() + 1 implies !self.rects@[#[trigger] full[j]].is_updated
                    && self.fresh(full[j]) by {
                    if j < it.index() {
                        assert(full[j] != *id);
                        assert(full.to_set().contains(full[j]));
                        assert(self.grid.members()[full[j]] == members_before[full[j]]);
                    }
                }
                assert forall|j: int| it.index() + 1 <= j < full.len() implies (if self.rects@[#[trigger] full[j]].is_updated {
                    in_reach(self.rects@[full[j]].bounds)
                } else {
                    self.fresh(full[j])
                }) by {
                    assert(full[j] != *id);
                    assert(full.to_set().contains(full[j]));
                    assert(self.grid.members()[full[j]] == members_before[full[j]]);
                }
            }
        }
        proof {
            assert forall|id: BodyId| #[trigger] self.rects@.contains_key(id) implies !self.rects@[id].is_updated
                && self.fresh(id) by {
                assert(full.to_set().contains(id));
                let j = choose|j: int| 0 <= j < full.len() && full[j] == id;
                assert(!self.rects@[full[j]].is_updated);
            }
        }
    }

    /// The event of a pair that the grid holds reports a player and an
    /// item whose boxes overlap, and names the pair.
    proof fn lemma_pair_event(&self, key: PairId)
        requires
            self.linked(),
            self.grid.pair_map().contains_key(key),
            forall|id: BodyId| #[trigger] self.rects@.contains_key(id) ==> self.fresh(id),
        ensures
            self.rects@.contains_key(self.grid.pair_map()[key].id1),
            self.rects@.contains_key(self.grid.pair_map()[key].id2),
            in_reach(self.rects@[self.grid.pair_map()[key].id1].bounds),
            in_reach(self.rects@[self.grid.pair_map()[key].id2].bounds),
            forall|event: Event|
                pair_event(self.rects@, self.grid.pair_map()[key]) == Some(event) ==> is_pickup(
                    event,
                    self.players@,
                    self.items@,
                    self.rects@,
                ) && key == pair_id(event.body_id, event.trigger_id),
    {
        let pair = self.grid.pair_map()[key];
        self.grid.lemma_pair_members(key);
        self.grid.lemma_pair_iff_shared(pair.id1, pair.id2);
        assert(self.grid.members().dom().contains(pair.id1));
        assert(self.grid.members().dom().contains(pair.id2));
        assert(self.rects@.contains_key(pair.id1));
        assert(self.rects@.contains_key(pair.id2));
        crate::grid::lemma_pair_id_commutative(pair.id1, pair.id2);
        crate::grid::lemma_regions_for(self.rects@[pair.id1].bounds);
        crate::grid::lemma_regions_for(self.rects@[pair.id2].bounds);
        let r = choose|r: crate::engine::RegionId|
            self.grid.members()[pair.id1].regions.contains(r)
                && self.grid.members()[pair.id2].regions.contains(r);
        assert(self.fresh(pair.id1) && self.fresh(pair.id2));
        assert(region_set(regions_for(self.rects@[pair.id1].bounds)).contains(r));
        assert(region_set(regions_for(self.rects@[pair.id2].bounds)).contains(r));
    }

    /// A player and an item that are registered in a common region are a
    /// pair of the grid, whose event reports them if their boxes overlap.
    proof fn lemma_pickup_pair(&self, event: Event)
        requires
            self.linked(),
            is_pickup(event, self.players@, self.items@, self.rects@),
            self.fresh(event.body_id),
            self.fresh(event.trigger_id),
        ensures
            self.grid.pair_map().contains_key(pair_id(event.body_id, event.trigger_id)),
            pair_event(
                self.rects@,
                self.grid.pair_map()[pair_id(event.body_id, event.trigger_id)],
            ) == Some(event),
    {
        let player = event.body_id;
        let item = event.trigger_id;
        let key = pair_id(player, item);
        assert(self.rects@.contains_key(player));
        assert(self.rects@.contains_key(item));
        assert(self.grid.members().dom().contains(player));
        assert(self.grid.members().dom().contains(item));
        let r = choose|r: crate::engine::RegionId|
            region_set(regions_for(self.rects@[player].bounds)).contains(r) && region_set(
                regions_for(self.rects@[item].bounds),
            ).contains(r);
        assert(self.grid.members()[player].regions.contains(r));
        assert(self.grid.members()[item].regions.contains(r));
        self.grid.lemma_pair_iff_shared(player, item);
        self.grid.lemma_pair_members(key);
        let pair = self.grid.pair_map()[key];
        crate::grid::lemma_pair_id_injective(player, item, pair.id1, pair.id2);
    }

    /// Reports the contacts of the pairs that the grid holds: a pair whose
    /// boxes overlap on both axes gives the event of its two classes.
    fn step_detect(&self, events: &mut Vec<Event>)
        requires
            self.linked(),
            forall|id: BodyId| #[trigger]
                self.rects@.contains_key(id) ==> self.fresh(id) && in_reach(
                    self.rects@[id].bounds,
                ),
        ensures
            final(events)@.len() >= old(events)@.len(),
            final(events)@.take(old(events)@.len() as int) == old(events)@,
            final(events)@.skip(old(events)@.len() as int).no_duplicates(),
            forall|event: Event|
                final(events)@.skip(old(events)@.len() as int).contains(event) <==> is_pickup(
                    event,
                    self.players@,
                    self.items@,
                    self.rects@,
                ),
    {
        broadcast use vstd::std_specs::hash::group_hash_axioms;

        let pairs = self.grid.pairs();
        let ghost full: Seq<PairId> = pairs.keys().remaining().unref();
        let ghost part: Seq<Event> = Seq::empty();
        proof {
            assert(events@ =~= old(events)@ + part);
        }
        for key in it: pairs.keys()
            invariant
                it.seq().unref() == full,
                full.to_set() == pairs@.dom(),
                full.no_duplicates(),
                pairs@ == self.grid.pair_map(),
                self.linked(),
                forall|id: BodyId| #[trigger]
                    self.rects@.contains_key(id) ==> self.fresh(id) && in_reach(
                        self.rects@[id].bounds,
                    ),
                events@ == old(events)@ + part,
                part.no_duplicates(),
                forall|event: Event|
                    part.contains(event) <==> exists|j: int|
                        0 <= j < it.index() && pair_event(self.rects@, pairs@[#[trigger] full[j]])
                            == Some(event),
        {
            let ghost before = part;
            proof {
                assert(full.to_set().contains(full[it.index()]));
                self.lemma_pair_event(*key);
            }
            let pair = pairs.get(key).unwrap();
            let rect1 = self.rects.get(&pair.id1).unwrap();
            let rect2 = self.rects.get(&pair.id2).unwrap();
            let found = detect_contact(rect1, rect2);
            proof {
                assert(found == pair_event(self.rects@, pairs@[*key]));
            }
            match found {
                Some(event) => {
                    events.push(event);
                    proof {
                        part = part.push(event);
                        assert(events@ =~= old(events)@ + part);
                        if before.contains(event) {
                            let j = choose|j: int|
                                0 <= j < it.index() && pair_event(
                                    self.rects@,
                                    pairs@[#[trigger] full[j]],
                                ) == Some(event);
                            assert(full.to_set().contains(full[j]));
                            self.lemma_pair_event(full[j]);
                            assert(full[j] == *key);
                        }
                        assert forall|e: Event|
                            part.contains(e) <==> exists|j: int|
                                0 <= j < it.index() + 1 && pair_event(
                                    self.rects@,
                                    pairs@[#[trigger] full[j]],
                                ) == Some(e) by {
                            vstd::seq_lib::lemma_seq_contains_after_push(before, event, e);
                            if exists|j: int|
                                0 <= j < it.index() + 1 && pair_event(
                                    self.rects@,
                                    pairs@[#[trigger] full[j]],
                                ) == Some(e) {
                                let j = choose|j: int|
                                    0 <= j < it.index() + 1 && pair_event(
                                        self.rects@,
                                        pairs@[#[trigger] full[j]],
                                    ) == Some(e);
                                if j < it.index() {
                                    assert(before.contains(e));
                                }
                            }
                            if before.contains(e) {
                                let j = choose|j: int|
                                    0 <= j < it.index() && pair_event(
                                        self.rects@,
                                        pairs@[#[trigger] full[j]],
                                    ) == Some(e);
                                assert(0 <= j < it.index() + 1);
                            }
                            if e == event {
                                assert(pair_event(self.rects@, pairs@[full[it.index()]]) == Some(
                                    e,
                                ));
                            }
                        }
                        assert(part.no_duplicates()) by {
                            assert forall|a: int, b: int|
                                0 <= a < part.len() && 0 <= b < part.len() && a != b implies part[a]
                                != part[b] by {
                                if a == before.len() {
                                    assert(before[b] == part[b]);
                                    assert(before.contains(before[b]));
                                } else if b == before.len() {
                                    assert(before[a] == part[a]);
                                    assert(before.contains(before[a]));
                                } else {
                                    assert(before[a] == part[a] && before[b] == part[b]);
                                }
                            }
                        }
                    }
                },
                None => {
                    proof {
                        assert forall|e: Event|
                            part.contains(e) <==> exists|j: int|
                                0 <= j < it.index() + 1 && pair_event(
                                    self.rects@,
                                    pairs@[#[trigger] full[j]],
                                ) == Some(e) by {
                            if exists|j: int|
                                0 <= j < it.index() + 1 && pair_event(
                                    self.rects@,
                                    pairs@[#[trigger] full[j]],
                                ) == Some(e) {
                                let j = choose|j: int|
                                    0 <= j < it.index() + 1 && pair_event(
                                        self.rects@,
                                        pairs@[#[trigger] full[j]],
                                    ) == Some(e);
                                assert(j < it.index());
                            }
                            if part.contains(e) {
                                let j = choose|j: int|
                                    0 <= j < it.index() && pair_event(
                                        self.rects@,
                                        pairs@[#[trigger] full[j]],
                                    ) == Some(e);
                                assert(0 <= j < it.index() + 1);
                            }
                        }
                    }
                },
            }
        }
        proof {
            let n = old(events)@.len() as int;
            assert(events@.take(n) =~= old(events)@);
            assert(events@.skip(n) =~= part);
            assert forall|event: Event|
                part.contains(event) <==> is_pickup(
                    event,
                    self.players@,
                    self.items@,
                    self.rects@,
                ) by {
                if part.contains(event) {
                    let j = choose|j: int|
                        0 <= j < full.len() && pair_event(self.rects@, pairs@[#[trigger] full[j]])
                            == Some(event);
                    assert(full.to_set().contains(full[j]));
                    self.lemma_pair_event(full[j]);
                }
                if is_pickup(event, self.players@, self.items@, self.rects@) {
                    assert(self.rects@.contains_key(event.body_id));
                    assert(self.rects@.contains_key(event.trigger_id));
                    self.lemma_pickup_pair(event);
                    let key = pair_id(event.body_id, event.trigger_id);
                    assert(full.to_set().contains(key));
                    let j = choose|j: int| 0 <= j < full.len() && full[j] == key;
                    assert(pair_event(self.rects@, pairs@[full[j]]) == Some(event));
                }
            }
        }
    }

    /// Ends the tick for every player, and reports those that stand at
    /// another position than at the end of the tick before.
    fn step_finish(&mut self) -> (positions_updates: Vec<PositionUpdate>)
        requires
            old(self).linked(),
            forall|id: BodyId| #[trigger]
                old(self).rects@.contains_key(id) ==> !old(self).rects@[id].is_updated,
        ensures
            final(self).wf(),
            final(self).same_frame(*old(self)),
            final(self).items@ == old(self).items@,
            final(self).ids_to_remove@ == old(self).ids_to_remove@,
            final(self).rects@ == old(self).rects@,
            final(self).players@.dom() == old(self).players@.dom(),
            forall|id: BodyId| #[trigger]
                old(self).players@.contains_key(id) ==> final(self).players@[id] == (BodyPlayer {
                    prev_x: old(self).players@[id].x,
                    prev_y: old(self).players@[id].y,
                    ..old(self).players@[id].settled()
                }),
            positions_updates@.no_duplicates(),
            forall|update: PositionUpdate|
                positions_updates@.contains(update) <==> (old(self).players@.contains_key(update.id)
                    && (old(self).players@[update.id].x != old(self).players@[update.id].prev_x
                    || old(self).players@[update.id].y != old(self).players@[update.id].prev_y)
                    && update.x == old(self).players@[update.id].x && update.y == old(self).players@[update.id].y),
    {
        broadcast use vstd::std_specs::hash::group_hash_axioms;

        let mut positions_updates: Vec<PositionUpdate> = Vec::new();
        let ids = body_ids(&self.players);
        let ghost order = ids@;
        let mut i: usize = 0;
        while i < ids.len()
            invariant
                0 <= i <= ids.len(),
                ids@ == order,
                order.no_duplicates(),
                order.to_set() == old(self).players@.dom(),
                old(self).linked(),
                self.same_frame(*old(self)),
                self.grid == old(self).grid,
                self.ids == old(self).ids,
                self.items == old(self).items,
                self.ids_to_remove == old(self).ids_to_remove,
                self.rects@ == old(self).rects@,
                self.players@.dom() == old(self).players@.dom(),
                forall|j: int|
                    0 <= j < i ==> self.players@[#[trigger] order[j]] == (BodyPlayer {
                        prev_x: old(self).players@[order[j]].x,
                        prev_y: old(self).players@[order[j]].y,
                        ..old(self).players@[order[j]].settled()
                    }),
                forall|j: int|
                    i <= j < order.len() ==> self.players@[#[trigger] order[j]] == old(self).players@[order[j]],
                positions_updates@.no_duplicates(),
                forall|update: PositionUpdate|
                    positions_updates@.contains(update) <==> (exists|j: int|
                        0 <= j < i && #[trigger] order[j] == update.id) && (old(self).players@[update.id].x != old(self).players@[update.id].prev_x || old(self).players@[update.id].y != old(self).players@[update.id].prev_y) && update.x
                        == old(self).players@[update.id].x && update.y == old(self).players@[update.id].y,
            decreases ids.len() - i,
        {
            let id = ids[i];
            let ghost before = positions_updates@;
            let ghost start = old(self).players@[id];
            proof {
                assert(order.to_set().contains(order[i as int]));
                assert(old(self).players@.contains_key(id));
                assert(old(self).rects@.contains_key(id));
            }
            let mut moved: Option<PositionUpdate> = None;
            match self.players.entry(id) {
                Entry::Occupied(mut player_entry) => {
                    let body = player_entry.get_mut();
                    body.after_update();
                    if !(body.x == body.prev_x && body.y == body.prev_y) {
                        moved = Some(PositionUpdate { id, x: body.x, y: body.y });
                        body.prev_x = body.x;
                        body.prev_y = body.y;
                        match self.rects.entry(id) {
                            Entry::Occupied(mut rect_entry) => {
                                body.update_rect(rect_entry.get_mut());
                            },
                            Entry::Vacant(_vacant) => {
                                assert(false);
                            },
                        }
                    }
                },
                Entry::Vacant(_vacant) => {
                    assert(false);
                },
            }
            proof {
                assert(self.players@.dom() =~= old(self).players@.dom());
                assert(self.rects@ =~= old(self).rects@);
                assert(self.players@[id] == (BodyPlayer {
                    prev_x: start.x,
                    prev_y: start.y,
                    ..start.settled()
                }));
                assert forall|j: int| 0 <= j < i + 1 implies self.players@[#[trigger] order[j]] == (
                BodyPlayer {
                    prev_x: old(self).players@[order[j]].x,
                    prev_y: old(self).players@[order[j]].y,
                    ..old(self).players@[order[j]].settled()
                }) by {
                    if j < i {
                        assert(order[j] != id);
                    }
                }
                assert forall|j: int| i + 1 <= j < order.len() implies self.players@[#[trigger] order[j]]
                    == old(self).players@[order[j]] by {
                    assert(order[j] != id);
                }
            }
            match moved {
                Some(update) => {
                    positions_updates.push(update);
                    proof {
                        assert(!before.contains(update)) by {
                            if before.contains(update) {
                                let j = choose|j: int| 0 <= j < i && #[trigger] order[j] == update.id;
                                assert(order[j] == order[i as int]);
                            }
                        }
                        assert forall|a: int, b: int|
                            0 <= a < positions_updates@.len() && 0 <= b < positions_updates@.len()
                                && a != b implies positions_updates@[a] != positions_updates@[b] by {
                            if a == before.len() {
                                assert(before.contains(before[b]));
                            } else if b == before.len() {
                                assert(before.contains(before[a]));
                            }
                        }
                        assert forall|u: PositionUpdate|
                            positions_updates@.contains(u) <==> (exists|j: int|
                                0 <= j < i + 1 && #[trigger] order[j] == u.id) && (old(self).players@[u.id].x != old(self).players@[u.id].prev_x || old(self).players@[u.id].y != old(self).players@[u.id].prev_y) && u.x == old(self).players@[u.id].x && u.y == old(self).players@[u.id].y by {
                            vstd::seq_lib::lemma_seq_contains_after_push(before, update, u);
                            if before.contains(u) {
                                let j = choose|j: int| 0 <= j < i && #[trigger] order[j] == u.id;
                                assert(0 <= j < i + 1 && order[j] == u.id);
                            }
                            if u == update {
                                assert(order[i as int] == u.id);
                            }
                            if exists|j: int| 0 <= j < i + 1 && #[trigger] order[j] == u.id {
                                let j = choose|j: int| 0 <= j < i + 1 && #[trigger] order[j] == u.id;
                                if j < i {
                                } else {
                                    assert(u.id == id);
                                }
                            }
                        }
                    }
                },
                None => {
                    proof {
                        assert forall|u: PositionUpdate|
                            positions_updates@.contains(u) <==> (exists|j: int|
                                0 <= j < i + 1 && #[trigger] order[j] == u.id) && (old(self).players@[u.id].x != old(self).players@[u.id].prev_x || old(self).players@[u.id].y != old(self).players@[u.id].prev_y) && u.x == old(self).players@[u.id].x && u.y == old(self).players@[u.id].y by {
                            if before.contains(u) {
                                let j = choose|j: int| 0 <= j < i && #[trigger] order[j] == u.id;
                                assert(0 <= j < i + 1 && order[j] == u.id);
                            }
                            if exists|j: int| 0 <= j < i + 1 && #[trigger] order[j] == u.id {
                                let j = choose|j: int| 0 <= j < i + 1 && #[trigger] order[j] == u.id;
                                if j < i {
                                } else {
                                    assert(u.id == id);
                                }
                            }
                        }
                    }
                },
            }
            i = i + 1;
        }
        proof {
            assert forall|id: BodyId| #[trigger] old(self).players@.contains_key(id) implies self.players@[id]
                == (BodyPlayer {
                prev_x: old(self).players@[id].x,
                prev_y: old(self).players@[id].y,
                ..old(self).players@[id].settled()
            }) by {
                assert(order.to_set().contains(id));
                let j = choose|j: int| 0 <= j < order.len() && order[j] == id;
                assert(self.players@[order[j]] == (BodyPlayer {
                    prev_x: old(self).players@[order[j]].x,
                    prev_y: old(self).players@[order[j]].y,
                    ..old(self).players@[order[j]].settled()
                }));
            }
            assert forall|update: PositionUpdate|
                positions_updates@.contains(update) <==> (old(self).players@.contains_key(update.id)
                    && (old(self).players@[update.id].x != old(self).players@[update.id].prev_x
                    || old(self).players@[update.id].y != old(self).players@[update.id].prev_y)
                    && update.x == old(self).players@[update.id].x && update.y == old(self).players@[update.id].y) by {
                if positions_updates@.contains(update) {
                    let j = choose|j: int| 0 <= j < i && #[trigger] order[j] == update.id;
                    assert(order.to_set().contains(order[j]));
                }
                if old(self).players@.contains_key(update.id) {
                    assert(order.to_set().contains(update.id));
                    let j = choose|j: int| 0 <= j < order.len() && order[j] == update.id;
                    assert(order[j] == update.id);
                }
            }
            assert forall|id: BodyId| #[trigger] self.players@.contains_key(id) implies self.rects@.contains_key(
                id,
            ) && !self.items@.contains_key(id) && self.players@[id].wf() && self.rects@[id].class
                == BodyClass::Player && self.rects@[id].bounds == self.players@[id].bounds() by {
                assert(old(self).players@.contains_key(id));
            }
            assert(self.linked());
        }
        positions_updates
    }

    /// Moves every player, and queues and reports those that leave the
    /// world.
    fn step_update_positions(&mut self, elapsed: u64, events: &mut Vec<Event>)
        requires
            old(self).wf(),
            old(self).ids_to_remove@ == Set::<BodyId>::empty(),
            old(events)@.len() == 0,
        ensures
            final(self).linked(),
            final(self).same_frame(*old(self)),
            final(self).grid == old(self).grid,
            final(self).ids == old(self).ids,
            final(self).items == old(self).items,
            final(self).rects@.dom() == old(self).rects@.dom(),
            final(self).players@.dom() == old(self).players@.dom(),
            forall|id: BodyId| #[trigger]
                old(self).players@.contains_key(id) ==> final(self).players@[id] == old(self).players@[id].integrated(elapsed),
            forall|id: BodyId| #[trigger]
                old(self).rects@.contains_key(id) ==> final(self).rects@[id].same_body(
                    Rect { bounds: final(self).rects@[id].bounds, ..old(self).rects@[id] },
                ) && final(self).rects@[id].regions == old(self).rects@[id].regions && (if final(self).rects@[id].is_updated {
                    final(self).players@.contains_key(id)
                } else {
                    final(self).rects@[id] == old(self).rects@[id] && (in_reach(
                        final(self).rects@[id].bounds,
                    ) && final(self).fresh(id))
                }),
            forall|id: BodyId|
                final(self).ids_to_remove@.contains(id) <==> old(self).players@.contains_key(id)
                    && player_leaves(
                    old(self).players@[id],
                    elapsed,
                    old(self).width as int,
                    old(self).height as int,
                ),
            leaving_events(
                final(events)@,
                old(self).players@,
                elapsed,
                old(self).width as int,
                old(self).height as int,
            ),
    {
        update_positions_typed(
            elapsed,
            self.width,
            self.height,
            &mut self.rects,
            &mut self.players,
            &mut self.ids_to_remove,
            events,
        );
        proof {
            let order = choose|order: Seq<BodyId>|
                order.no_duplicates() && order.to_set() == old(self).players@.dom() && events@
                    == old(events)@ + #[trigger] out_of_world_events(
                    order,
                    self.rects@,
                    self.width as int,
                    self.height as int,
                );
            crate::engine::lemma_out_of_world_events(
                order,
                self.rects@,
                self.width as int,
                self.height as int,
            );
            assert(events@ =~= out_of_world_events(
                order,
                self.rects@,
                self.width as int,
                self.height as int,
            ));
            assert forall|id: BodyId| #[trigger] old(self).players@.contains_key(id) implies self.rects@[id].bounds
                == old(self).players@[id].integrated(elapsed).bounds() && self.rects@[id].is_updated
                == old(self).players@[id].in_motion() by {
                assert(old(self).rects@.contains_key(id));
                let player = old(self).players@[id];
                if !player.in_motion() {
                    assert(run_offset(0, elapsed as int) == 0);
                }
            }
            assert forall|event: Event|
                events@.contains(event) <==> (event.class == EventClass::OutOfWorld
                    && event.trigger_id == 0 && old(self).players@.contains_key(event.body_id)
                    && player_leaves(
                    old(self).players@[event.body_id],
                    elapsed,
                    self.width as int,
                    self.height as int,
                )) by {
                if order.contains(event.body_id) {
                    assert(order.to_set().contains(event.body_id));
                }
                if old(self).players@.contains_key(event.body_id) {
                    assert(order.to_set().contains(event.body_id));
                }
            }
            assert(self.grid.members().dom() =~= self.rects@.dom());
            assert forall|id: BodyId| #[trigger] self.rects@.contains_key(id) implies 0 < id
                <= self.next_body_id && (self.players@.contains_key(id)
                || self.items@.contains_key(id)) by {
                assert(old(self).rects@.contains_key(id));
            }
            assert forall|id: BodyId| #[trigger] self.items@.contains_key(id) implies self.rects@.contains_key(
                id,
            ) && self.rects@[id].class == BodyClass::Item && in_reach(self.rects@[id].bounds)
                && self.fresh(id) && !self.rects@[id].is_updated by {
                assert(old(self).rects@.contains_key(id));
                assert(!old(self).players@.contains_key(id));
            }
            assert forall|id: BodyId| #[trigger]
                self.grid.members().contains_key(id) implies self.rects@.contains_key(id)
                && self.rects@[id].id == id && self.rects@[id].class
                == self.grid.members()[id].class && regions_wf(self.rects@[id].regions@)
                && region_set(self.rects@[id].regions@) == self.grid.members()[id].regions by {
                assert(old(self).rects@.contains_key(id));
            }
            assert forall|id: BodyId| #[trigger] old(self).rects@.contains_key(id) implies self.rects@[id].same_body(
                Rect { bounds: self.rects@[id].bounds, ..old(self).rects@[id] },
            ) && self.rects@[id].regions == old(self).rects@[id].regions && (if self.rects@[id].is_updated {
                self.players@.contains_key(id)
            } else {
                self.rects@[id] == old(self).rects@[id] && (in_reach(self.rects@[id].bounds)
                    && self.fresh(id))
            }) by {
                if old(self).players@.contains_key(id) {
                } else {
                    assert(old(self).items@.contains_key(id));
                }
            }
        }
    }

    /// Resolves the players against the terrain.
    fn step_correct(&mut self)
        requires
            old(self).linked(),
        ensures
            final(self).linked(),
            final(self).same_frame(*old(self)),
            final(self).items@ == old(self).items@,
            final(self).ids_to_remove@ == old(self).ids_to_remove@,
            final(self).rects@.dom() == old(self).rects@.dom(),
            final(self).players@.dom() == old(self).players@.dom(),
            forall|id: BodyId| #[trigger]
                old(self).players@.contains_key(id) ==> final(self).players@[id]
                    == terrain_corrected(old(self).players@[id], &old(self).cells),
            forall|id: BodyId| #[trigger]
                old(self).rects@.contains_key(id) ==> final(self).rects@[id].is_updated == old(self).rects@[id].is_updated && (old(self).items@.contains_key(id) ==> final(self).rects@[id] == old(self).rects@[id]),
    {
        update_correct_players(&self.cells, &mut self.rects, &mut self.players);
        proof {
            assert(self.grid.members().dom() =~= self.rects@.dom());
            assert forall|id: BodyId| #[trigger] self.rects@.contains_key(id) implies 0 < id
                <= self.next_body_id && (self.players@.contains_key(id)
                || self.items@.contains_key(id)) by {
                assert(old(self).rects@.contains_key(id));
            }
            assert forall|id: BodyId| #[trigger] self.items@.contains_key(id) implies self.rects@.contains_key(
                id,
            ) && self.rects@[id].class == BodyClass::Item && in_reach(self.rects@[id].bounds)
                && self.fresh(id) && !self.rects@[id].is_updated by {
                assert(old(self).rects@.contains_key(id));
                assert(!old(self).players@.contains_key(id));
            }
            assert forall|id: BodyId| #[trigger]
                self.grid.members().contains_key(id) implies self.rects@.contains_key(id)
                && self.rects@[id].id == id && self.rects@[id].class
                == self.grid.members()[id].class && regions_wf(self.rects@[id].regions@)
                && region_set(self.rects@[id].regions@) == self.grid.members()[id].regions by {
                assert(old(self).rects@.contains_key(id));
            }
            assert forall|id: BodyId| #[trigger] self.players@.contains_key(id) implies self.rects@.contains_key(
                id,
            ) && !self.items@.contains_key(id) && self.players@[id].wf() && self.rects@[id].class
                == BodyClass::Player && self.rects@[id].bounds == self.players@[id].bounds() by {
                assert(old(self).players@.contains_key(id));
            }
            assert forall|id: BodyId| #[trigger] old(self).rects@.contains_key(id) implies self.rects@[id].is_updated
                == old(self).rects@[id].is_updated && (old(self).items@.contains_key(id)
                ==> self.rects@[id] == old(self).rects@[id]) by {
                if old(self).items@.contains_key(id) {
                    assert(!old(self).players@.contains_key(id));
                }
            }
        }
    }

    /// One tick of `elapsed` microseconds. The bodies that await removal
    /// go first. Then every player moves; those that leave the world are
    /// reported and removed. The grid is brought up to date, and every
    /// player whose box overlaps that of an item is reported with the
    /// item. Last the players are resolved against the terrain and
    /// settled, and those that changed their position are reported.
    #[verifier::rlimit(60)]
    pub fn advance(&mut self, elapsed: u64) -> (results: UpdateResults)
        requires
            old(self).wf(),
        ensures
            final(self).wf(),
            final(self).width() == old(self).width(),
            final(self).height() == old(self).height(),
            final(self).cell_store() == old(self).cell_store(),
            final(self).last_id() == old(self).last_id(),
            final(self).awaits_first_tick() == old(self).awaits_first_tick(),
            final(self).pending() == Set::<BodyId>::empty(),
            final(self).rects().dom() == final(self).players().dom().union(
                final(self).items().dom(),
            ),
            final(self).items() == old(self).items().remove_keys(old(self).pending()),
            final(self).players() == players_after_tick(
                old(self).players().remove_keys(old(self).pending()),
                elapsed,
                old(self).width(),
                old(self).height(),
                &old(self).cell_store(),
            ),
            forall|id: BodyId| #[trigger]
                final(self).items().contains_key(id) ==> final(self).rects()[id].same_body(
                    old(self).rects()[id],
                ),
            exists|split: int|
                0 <= split <= results.events@.len() && #[trigger] leaving_events(
                    results.events@.take(split),
                    old(self).players().remove_keys(old(self).pending()),
                    elapsed,
                    old(self).width(),
                    old(self).height(),
                ) && pickup_events(
                    results.events@.skip(split),
                    old(self).players().remove_keys(old(self).pending()),
                    old(self).items().remove_keys(old(self).pending()),
                    old(self).rects(),
                    elapsed,
                    old(self).width(),
                    old(self).height(),
                ),
            position_updates(
                results.positions_updates@,
                old(self).players().remove_keys(old(self).pending()),
                elapsed,
                old(self).width(),
                old(self).height(),
                &old(self).cell_store(),
            ),
    {
        broadcast use vstd::std_specs::hash::group_hash_axioms;

        let mut events: Vec<Event> = Vec::new();
        let ghost w = self.width as int;
        let ghost h = self.height as int;
        if !self.ids_to_remove.is_empty() {
            self.step_clear();
        }
        let ghost s1 = *self;
        proof {
            assert(s1.rects@ =~= old(self).rects@.remove_keys(old(self).ids_to_remove@));
            assert(s1.players@ =~= old(self).players@.remove_keys(old(self).ids_to_remove@));
            assert(s1.items@ =~= old(self).items@.remove_keys(old(self).ids_to_remove@));
            assert(s1.ids_to_remove@ =~= Set::<BodyId>::empty());
            assert forall|id: BodyId| #[trigger] s1.players@.contains_key(id) implies !s1.rects@[id].is_updated
                && s1.players@[id].prev_x == s1.players@[id].x && s1.players@[id].prev_y
                == s1.players@[id].y && (s1.players@[id].is_on_ground || s1.players@[id].is_jump
                || s1.players@[id].is_fall || (in_reach(s1.rects@[id].bounds) && s1.fresh(
                id,
            ))) by {
                assert(old(self).players@.contains_key(id));
                assert(s1.rects@.contains_key(id));
            }
            assert(s1.wf());
        }
        self.step_update_positions(elapsed, &mut events);
        let ghost s2 = *self;
        let ghost split = events@.len() as int;
        let ghost leaving = events@;
        if !self.ids_to_remove.is_empty() {
            self.step_clear();
        }
        let ghost s3 = *self;
        proof {
            assert(s3.rects@ =~= s2.rects@.remove_keys(s2.ids_to_remove@));
            assert(s3.players@ =~= s2.players@.remove_keys(s2.ids_to_remove@));
            assert(s3.items@ =~= s2.items@.remove_keys(s2.ids_to_remove@));
            assert(s3.items@ =~= s1.items@);
            assert(s3.ids_to_remove@ =~= Set::<BodyId>::empty());
            assert forall|id: BodyId| #[trigger] s3.rects@.contains_key(id) implies (if s3.rects@[id].is_updated {
                in_reach(s3.rects@[id].bounds)
            } else {
                s3.fresh(id)
            }) by {
                assert(s2.rects@.contains_key(id));
                assert(s1.rects@.contains_key(id));
                if s3.rects@[id].is_updated {
                    assert(s2.players@.contains_key(id));
                    assert(s1.players@.contains_key(id));
                    assert(!s2.ids_to_remove@.contains(id));
                    assert(s3.players@.contains_key(id));
                    assert(s3.rects@[id].bounds == s3.players@[id].bounds());
                } else {
                    assert(s3.grid.members()[id] == s2.grid.members()[id]);
                }
            }
        }
        self.step_broadphase();
        let ghost s4 = *self;
        proof {
            assert forall|id: BodyId| #[trigger] s4.rects@.contains_key(id) implies s4.fresh(id)
                && in_reach(s4.rects@[id].bounds) by {
                assert(s3.rects@.contains_key(id));
                assert(s2.rects@.contains_key(id));
                assert(s1.rects@.contains_key(id));
                if s3.rects@[id].is_updated {
                } else {
                    assert(s3.rects@[id] == s2.rects@[id]);
                }
            }
        }
        self.step_detect(&mut events);
        proof {
            let contacts = events@.skip(split);
            assert(events@.take(split) == leaving);
            assert(s4.players@ == s3.players@);
            assert(s4.items@ == s1.items@);
            assert forall|id: BodyId|
                s4.players@.contains_key(id) <==> s1.players@.contains_key(id) && !player_leaves(
                    s1.players@[id],
                    elapsed,
                    w,
                    h,
                ) by {
                if s1.players@.contains_key(id) {
                    assert(s2.players@.contains_key(id));
                }
                if s4.players@.contains_key(id) {
                    assert(s2.players@.contains_key(id));
                }
            }
            assert forall|id: BodyId| s4.players@.contains_key(id) implies s4.rects@[id].bounds
                == s1.players@[id].integrated(elapsed).bounds() by {
                assert(s3.players@.contains_key(id));
                assert(s4.rects@.contains_key(id));
                assert(s3.rects@.contains_key(id));
                assert(s2.players@.contains_key(id));
                assert(s1.players@.contains_key(id));
            }
            assert forall|id: BodyId| s4.items@.contains_key(id) implies s4.rects@[id].bounds
                == old(self).rects@[id].bounds by {
                assert(s4.rects@.contains_key(id));
                assert(s3.rects@.contains_key(id));
                assert(s2.rects@.contains_key(id));
                assert(s1.rects@.contains_key(id));
                assert(s2.items@.contains_key(id));
                assert(!s2.rects@[id].is_updated);
            }
            lemma_pickups(
                contacts,
                s1.players@,
                s4.players@,
                s4.items@,
                old(self).rects@,
                s4.rects@,
                elapsed,
                w,
                h,
            );
        }
        self.step_correct();
        let ghost s6 = *self;
        proof {
            assert forall|id: BodyId| #[trigger] s6.rects@.contains_key(id) implies !s6.rects@[id].is_updated by {
                assert(s4.rects@.contains_key(id));
            }
        }
        let positions_updates = self.step_finish();
        proof {
            let cleared = old(self).players@.remove_keys(old(self).ids_to_remove@);
            let cells = old(self).cells;
            assert(cleared == s1.players@);
            assert forall|id: BodyId| #[trigger] s6.players@.contains_key(id) implies s1.players@.contains_key(
                id,
            ) && !player_leaves(s1.players@[id], elapsed, w, h) && s6.players@[id]
                == terrain_corrected(s1.players@[id].integrated(elapsed), &cells) by {
                assert(s4.players@.contains_key(id));
                assert(s3.players@.contains_key(id));
                assert(s2.players@.contains_key(id));
                assert(!s2.ids_to_remove@.contains(id));
            }
            assert forall|id: BodyId|
                s1.players@.contains_key(id) && !player_leaves(
                    s1.players@[id],
                    elapsed,
                    w,
                    h,
                ) implies #[trigger] s6.players@.contains_key(id) by {
                assert(!s2.ids_to_remove@.contains(id));
                assert(s2.players@.contains_key(id));
                assert(s3.players@.contains_key(id));
            }
            assert(self.players@ =~= players_after_tick(cleared, elapsed, w, h, &cells));
            assert forall|update: PositionUpdate|
                positions_updates@.contains(update) <==> (cleared.contains_key(update.id)
                    && !player_leaves(cleared[update.id], elapsed, w, h) && player_moved(
                    cleared[update.id],
                    elapsed,
                    &cells,
                ) && update.x == player_after_tick(cleared[update.id], elapsed, &cells).x
                    && update.y == player_after_tick(cleared[update.id], elapsed, &cells).y) by {
                if cleared.contains_key(update.id) && !player_leaves(
                    cleared[update.id],
                    elapsed,
                    w,
                    h,
                ) {
                    assert(s6.players@.contains_key(update.id));
                }
                if s6.players@.contains_key(update.id) {
                    assert(s1.players@.contains_key(update.id));
                }
            }
            assert forall|id: BodyId| #[trigger] self.items@.contains_key(id) implies self.rects@[id].same_body(
                old(self).rects@[id],
            ) by {
                assert(s6.items@.contains_key(id));
                assert(s4.items@.contains_key(id));
                assert(s4.rects@.contains_key(id));
                assert(s3.rects@.contains_key(id));
                assert(s2.rects@.contains_key(id));
                assert(s1.rects@.contains_key(id));
                assert(!s1.players@.contains_key(id));
            }
            assert(leaving_events(events@.take(split), cleared, elapsed, w, h));
            assert(pickup_events(
                events@.skip(split),
                cleared,
                old(self).items@.remove_keys(old(self).ids_to_remove@),
                old(self).rects@,
                elapsed,
                w,
                h,
            ));
        }
        let results = UpdateResults { events, positions_updates };
        proof {
            self.lemma_bodies(0);
            assert(0 <= split <= results.events@.len());
            assert(leaving_events(
                results.events@.take(split),
                old(self).players().remove_keys(old(self).pending()),
                elapsed,
                old(self).width(),
                old(self).height(),
            ));
            assert(pickup_events(
                results.events@.skip(split),
                old(self).players().remove_keys(old(self).pending()),
                old(self).items().remove_keys(old(self).pending()),
                old(self).rects(),
                elapsed,
                old(self).width(),
                old(self).height(),
            ));
        }
        results
    }

    /// One tick over the time that has passed since the end of the tick
    /// before, as the clock gives it; the first tick is one of no time.
    pub fn update(&mut self) -> (results: UpdateResults)
        requires
            old(self).wf(),
        ensures
            final(self).wf(),
            final(self).width() == old(self).width(),
            final(self).height() == old(self).height(),
            final(self).cell_store() == old(self).cell_store(),
            final(self).last_id() == old(self).last_id(),
            final(self).pending() == Set::<BodyId>::empty(),
            final(self).items() == old(self).items().remove_keys(old(self).pending()),
            forall|id: BodyId| #[trigger]
                final(self).items().contains_key(id) ==> final(self).rects()[id].same_body(
                    old(self).rects()[id],
                ),
            final(self).rects().dom() == final(self).players().dom().union(
                final(self).items().dom(),
            ),
            !final(self).awaits_first_tick(),
            old(self).awaits_first_tick() ==> ticked(*old(self), *final(self), results, 0),
            exists|elapsed: u64| #[trigger]
                ticked(*old(self), *final(self), results, elapsed),
    {
        let elapsed = micros_since(&self.last_update);
        let results = self.advance(elapsed);
        self.last_update = Some(clock_now());
        proof {
            assert(ticked(*old(self), *self, results, elapsed));
        }
        results
    }

    /// The cells around the body `player_id` on which a block may be
    /// placed, as coordinates, x before y; none if there is no such body.
    pub fn get_possible_build_blocks(&self, player_id: BodyId) -> (coordinates: Vec<i32>)
        requires
            self.wf(),
        ensures
            coordinates@ == (if self.rects().contains_key(player_id) {
                build_ring(&self.cell_store(), self.rects()[player_id].bounds)
            } else {
                Seq::<i32>::empty()
            }),
    {
        broadcast use vstd::std_specs::hash::group_hash_axioms;

        let mut result: Vec<i32> = Vec::new();
        let rect = match self.rects.get(&player_id) {
            Some(rect) => rect,
            None => {
                return result;
            },
        };
        let min_x = cell_index(rect.bounds.min_x) - 1;
        let max_x = cell_index(rect.bounds.max_x) + 1;
        let min_y = cell_index(rect.bounds.min_y) - 1;
        let max_y = cell_index(rect.bounds.max_y) + 1;
        let mut x_cell = min_x;
        while x_cell <= max_x
            invariant
                self.cells.wf(),
                min_x <= x_cell,
                max_x <= 0x100_0000,
                min_x <= max_x + 1 ==> x_cell <= max_x + 1,
                result@ == ring_rows(
                    &self.cells,
                    min_x as int,
                    (x_cell - min_x) as nat,
                    min_y as int,
                    max_y as int,
                ),
            decreases max_x + 1 - x_cell,
        {
            if self.cells.can_build(x_cell, min_y) {
                result.push(x_cell);
                result.push(min_y);
            }
            if self.cells.can_build(x_cell, max_y) {
                result.push(x_cell);
                result.push(max_y);
            }
            proof {
                assert(result@ =~= ring_rows(
                    &self.cells,
                    min_x as int,
                    (x_cell - min_x) as nat,
                    min_y as int,
                    max_y as int,
                ) + ring_ends(&self.cells, x_cell as int, min_y as int, max_y as int));
            }
            x_cell = x_cell + 1;
        }
        let ghost rows = result@;
        let mut y_cell = min_y + 1;
        proof {
            assert(result@ =~= rows + ring_columns(
                &self.cells,
                min_y + 1,
                0,
                min_x as int,
                max_x as int,
            ));
        }
        while y_cell <= max_y - 1
            invariant
                self.cells.wf(),
                min_y + 1 <= y_cell,
                -0x100_0002 <= max_y <= 0x100_0000,
                -0x100_0002 <= min_y,
                min_y + 1 <= max_y ==> y_cell <= max_y,
                result@ == rows + ring_columns(
                    &self.cells,
                    min_y + 1,
                    (y_cell - (min_y + 1)) as nat,
                    min_x as int,
                    max_x as int,
                ),
            decreases max_y - y_cell,
        {
            if self.cells.can_build(min_x, y_cell) {
                result.push(min_x);
                result.push(y_cell);
            }
            if self.cells.can_build(max_x, y_cell) {
                result.push(max_x);
                result.push(y_cell);
            }
            proof {
                assert(result@ =~= rows + (ring_columns(
                    &self.cells,
                    min_y + 1,
                    (y_cell - (min_y + 1)) as nat,
                    min_x as int,
                    max_x as int,
                ) + ring_sides(&self.cells, y_cell as int, min_x as int, max_x as int)));
            }
            y_cell = y_cell + 1;
        }
        result
    }

    /// The two worlds have the same size, cells, counter and clock.
    spec fn same_frame(self, other: World) -> bool {
        &&& self.width == other.width
        &&& self.height == other.height
        &&& self.cells == other.cells
        &&& self.next_body_id == other.next_body_id
        &&& self.last_update == other.last_update
    }

    /// The two worlds have the same bodies, size, counter and pending
    /// removals.
    pub open spec fn same_bodies(self, other: World) -> bool {
        &&& self.width() == other.width()
        &&& self.height() == other.height()
        &&& self.players() == other.players()
        &&& self.items() == other.items()
        &&& self.rects() == other.rects()
        &&& self.pending() == other.pending()
        &&& self.last_id() == other.last_id()
        &&& self.awaits_first_tick() == other.awaits_first_tick()
    }

    /// The two worlds differ at most in their players.
    pub open spec fn same_but_players(self, other: World) -> bool {
        &&& self.width() == other.width()
        &&& self.height() == other.height()
        &&& self.cell_store() == other.cell_store()
        &&& self.items() == other.items()
        &&& self.rects() == other.rects()
        &&& self.pending() == other.pending()
        &&& self.last_id() == other.last_id()
        &&& self.awaits_first_tick() == other.awaits_first_tick()
    }
}

/// The cell of the block with the given id in a store of the given width.
pub open spec fn block_cell(id: BodyId, width: int) -> (int, int) {
    ((id - 1) % width, (id - 1) / width)
}

/// A player that stands on the ground without intent, and that the
/// terrain pushes back up by the one unit that the tick nudges it down,
/// is where it was after the tick, still on the ground, and is not
/// reported as moved.
pub proof fn lemma_idle_player_stays(player: BodyPlayer, elapsed: u64, cells: &Cells)
    requires
        player.wf(),
        player.is_on_ground,
        player.move_state == Direction::Idle,
        player.prev_x == player.x,
        player.prev_y == player.y,
        player.y < crate::body::player::COORD_LIMIT,
        terrain_push(player.integrated(elapsed), cells) == (0int, -1int),
    ensures
        !player_moved(player, elapsed, cells),
        player_after_tick(player, elapsed, cells).x == player.x,
        player_after_tick(player, elapsed, cells).y == player.y,
        player_after_tick(player, elapsed, cells).is_on_ground,
        player_after_tick(player, elapsed, cells).force_x == 0,
{
    assert(run_offset(0, elapsed as int) == 0);
}

/// A falling player that the terrain pushes up lands within the tick: it
/// is on the ground and falls no more, and it has the full speed of its
/// intent, with which it moves in the next tick.
pub proof fn lemma_landing(player: BodyPlayer, elapsed: u64, cells: &Cells, next_elapsed: u64)
    requires
        player.wf(),
        player.is_fall,
        terrain_push(player.integrated(elapsed), cells).1 < 0,
    ensures
        player_after_tick(player, elapsed, cells).is_on_ground,
        !player_after_tick(player, elapsed, cells).is_fall,
        !player_after_tick(player, elapsed, cells).is_jump,
        player_after_tick(player, elapsed, cells).move_state == player.move_state,
        player_after_tick(player, elapsed, cells).force_x == run_speed(player.move_state),
        player_after_tick(player, elapsed, cells).integrated(next_elapsed).x == clamp_coord(
            player_after_tick(player, elapsed, cells).x + run_offset(
                run_speed(player.move_state),
                next_elapsed as int,
            ),
        ),
{
    crate::engine::lemma_terrain_push_small(player.integrated(elapsed), cells);
}

/// The flat list of coordinates, x before y, names the cell `(x, y)`.
pub open spec fn lists_cell(coordinates: Seq<i32>, x: int, y: int) -> bool {
    exists|k: int| #[trigger] names_cell(coordinates, k, x, y)
}

/// The entries `2 * k` and `2 * k + 1` of the list are `x` and `y`.
pub open spec fn names_cell(coordinates: Seq<i32>, k: int, x: int, y: int) -> bool {
    0 <= k && 2 * k + 1 < coordinates.len() && coordinates[2 * k] == x && coordinates[2 * k + 1]
        == y
}

/// The cell lies on the ring of cells one cell beyond those that the box
/// touches.
pub open spec fn on_ring(bounds: Bounds, x: int, y: int) -> bool {
    let min_x = crate::engine::cell_of(bounds.min_x as int) - 1;
    let max_x = crate::engine::cell_of(bounds.max_x as int) + 1;
    let min_y = crate::engine::cell_of(bounds.min_y as int) - 1;
    let max_y = crate::engine::cell_of(bounds.max_y as int) + 1;
    ((y == min_y || y == max_y) && min_x <= x <= max_x) || ((x == min_x || x == max_x) && min_y < y
        < max_y)
}

proof fn lemma_lists_joined(a: Seq<i32>, b: Seq<i32>, x: int, y: int)
    requires
        a.len() % 2 == 0,
    ensures
        lists_cell(a + b, x, y) <==> lists_cell(a, x, y) || lists_cell(b, x, y),
{
    let half = (a.len() / 2) as int;
    if lists_cell(a + b, x, y) {
        let k = choose|k: int| #[trigger] names_cell(a + b, k, x, y);
        if k < half {
            assert(names_cell(a, k, x, y));
        } else {
            assert((a + b)[2 * k] == b[2 * (k - half)]);
            assert((a + b)[2 * k + 1] == b[2 * (k - half) + 1]);
            assert(names_cell(b, k - half, x, y));
        }
    }
    if lists_cell(a, x, y) {
        let k = choose|k: int| #[trigger] names_cell(a, k, x, y);
        assert(names_cell(a + b, k, x, y));
    }
    if lists_cell(b, x, y) {
        let k = choose|k: int| #[trigger] names_cell(b, k, x, y);
        assert((a + b)[2 * (k + half)] == b[2 * k]);
        assert((a + b)[2 * (k + half) + 1] == b[2 * k + 1]);
        assert(names_cell(a + b, k + half, x, y));
    }
}

proof fn lemma_lists_two(first: bool, a: (int, int), second: bool, b: (int, int), x: int, y: int)
    requires
        i32::MIN <= a.0 <= i32::MAX,
        i32::MIN <= a.1 <= i32::MAX,
        i32::MIN <= b.0 <= i32::MAX,
        i32::MIN <= b.1 <= i32::MAX,
    ensures
        ({
            let list = (if first {
                seq![a.0 as i32, a.1 as i32]
            } else {
                Seq::empty()
            }) + (if second {
                seq![b.0 as i32, b.1 as i32]
            } else {
                Seq::empty()
            });
            list.len() % 2 == 0 && (lists_cell(list, x, y) <==> (first && (x, y) == a) || (second
                && (x, y) == b))
        }),
{
    let head: Seq<i32> = if first {
        seq![a.0 as i32, a.1 as i32]
    } else {
        Seq::empty()
    };
    let tail: Seq<i32> = if second {
        seq![b.0 as i32, b.1 as i32]
    } else {
        Seq::empty()
    };
    lemma_lists_joined(head, tail, x, y);
    if lists_cell(head, x, y) {
        let k = choose|k: int| #[trigger] names_cell(head, k, x, y);
        assert(k == 0);
    }
    if lists_cell(tail, x, y) {
        let k = choose|k: int| #[trigger] names_cell(tail, k, x, y);
        assert(k == 0);
    }
    if first && (x, y) == a {
        assert(names_cell(head, 0, x, y));
    }
    if second && (x, y) == b {
        assert(names_cell(tail, 0, x, y));
    }
}

proof fn lemma_ring_rows(
    cells: &Cells,
    min_x: int,
    count: nat,
    min_y: int,
    max_y: int,
    x: int,
    y: int,
)
    requires
        -0x200_0000 <= min_x,
        min_x + count <= 0x200_0000,
        -0x200_0000 <= min_y < max_y <= 0x200_0000,
    ensures
        ring_rows(cells, min_x, count, min_y, max_y).len() % 2 == 0,
        lists_cell(ring_rows(cells, min_x, count, min_y, max_y), x, y) <==> min_x <= x < min_x
            + count && (y == min_y || y == max_y) && cells.buildable_at(x, y),
    decreases count,
{
    if count == 0 {
        if lists_cell(ring_rows(cells, min_x, count, min_y, max_y), x, y) {
            let k = choose|k: int| #[trigger]
                names_cell(ring_rows(cells, min_x, count, min_y, max_y), k, x, y);
            assert(false);
        }
    } else {
        let shorter = (count - 1) as nat;
        let last = min_x + count - 1;
        lemma_ring_rows(cells, min_x, shorter, min_y, max_y, x, y);
        lemma_lists_two(
            cells.buildable_at(last, min_y),
            (last, min_y),
            cells.buildable_at(last, max_y),
            (last, max_y),
            x,
            y,
        );
        lemma_lists_joined(
            ring_rows(cells, min_x, shorter, min_y, max_y),
            ring_ends(cells, last, min_y, max_y),
            x,
            y,
        );
    }
}

proof fn lemma_ring_columns(
    cells: &Cells,
    first_y: int,
    count: nat,
    min_x: int,
    max_x: int,
    x: int,
    y: int,
)
    requires
        -0x200_0000 <= first_y,
        first_y + count <= 0x200_0000,
        -0x200_0000 <= min_x < max_x <= 0x200_0000,
    ensures
        ring_columns(cells, first_y, count, min_x, max_x).len() % 2 == 0,
        lists_cell(ring_columns(cells, first_y, count, min_x, max_x), x, y) <==> first_y <= y
            < first_y + count && (x == min_x || x == max_x) && cells.buildable_at(x, y),
    decreases count,
{
    if count == 0 {
        if lists_cell(ring_columns(cells, first_y, count, min_x, max_x), x, y) {
            let k = choose|k: int| #[trigger]
                names_cell(ring_columns(cells, first_y, count, min_x, max_x), k, x, y);
            assert(false);
        }
    } else {
        let shorter = (count - 1) as nat;
        let last = first_y + count - 1;
        lemma_ring_columns(cells, first_y, shorter, min_x, max_x, x, y);
        lemma_lists_two(
            cells.buildable_at(min_x, last),
            (min_x, last),
            cells.buildable_at(max_x, last),
            (max_x, last),
            x,
            y,
        );
        lemma_lists_joined(
            ring_columns(cells, first_y, shorter, min_x, max_x),
            ring_sides(cells, last, min_x, max_x),
            x,
            y,
        );
    }
}

/// The build query names exactly the cells of the ring around the box on
/// which a block may be placed: none of them is busy, and each has a
/// block, or the outside of the cell store, on one of its four sides.
pub proof fn lemma_build_ring(cells: &Cells, bounds: Bounds, x: int, y: int)
    requires
        bounds.min_x <= bounds.max_x,
        bounds.min_y <= bounds.max_y,
    ensures
        build_ring(cells, bounds).len() % 2 == 0,
        lists_cell(build_ring(cells, bounds), x, y) <==> on_ring(bounds, x, y)
            && cells.buildable_at(x, y),
{
    let min_x = crate::engine::cell_of(bounds.min_x as int) - 1;
    let max_x = crate::engine::cell_of(bounds.max_x as int) + 1;
    let min_y = crate::engine::cell_of(bounds.min_y as int) - 1;
    let max_y = crate::engine::cell_of(bounds.max_y as int) + 1;
    let rows = ring_rows(cells, min_x, (max_x - min_x + 1) as nat, min_y, max_y);
    let columns = ring_columns(cells, min_y + 1, (max_y - min_y - 1) as nat, min_x, max_x);
    lemma_ring_rows(cells, min_x, (max_x - min_x + 1) as nat, min_y, max_y, x, y);
    lemma_ring_columns(cells, min_y + 1, (max_y - min_y - 1) as nat, min_x, max_x, x, y);
    lemma_lists_joined(rows, columns, x, y);
}

} // verus!
