use vstd::prelude::*;
use crate::body::Body;
use crate::engine::Rect;

verus! {

pub const BODY_ITEM_WIDTH: i32 = 64;

pub const BODY_ITEM_HALF_WIDTH: i32 = 32;

pub const BODY_ITEM_HEIGHT: i32 = 64;

/// An item that lies where it was put until a player picks it up.
#[derive(Copy, Clone, Debug)]
pub struct BodyItem {
    pub x: i32,
    pub y: i32,
    pub move_dir_y: i8,
    pub is_on_ground: bool,
}

impl BodyItem {
    /// An item at `(x, y)`.
    pub fn new(x: i32, y: i32) -> (item: BodyItem)
        ensures
            item == (BodyItem { x, y, move_dir_y: 0, is_on_ground: false }),
    {
        BodyItem { x, y, move_dir_y: 0, is_on_ground: false }
    }
}

impl Body for BodyItem {
    open spec fn valid(&self) -> bool {
        true
    }

    open spec fn stepped(&self, elapsed: u64) -> BodyItem {
        *self
    }

    open spec fn active(&self) -> bool {
        false
    }

    open spec fn placed(&self, rect: Rect) -> Rect {
        rect
    }

    fn update(&mut self, _elapsed: u64, _rect: &mut Rect) {
    }

    fn update_rect(&mut self, _rect: &mut Rect) {
    }
}

} // verus!
