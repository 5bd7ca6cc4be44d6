use vstd::prelude::*;
use std::collections::{HashMap, HashSet};
use crate::engine::Rect;

pub mod item;
pub mod player;

verus! {

/// Identifier of a body. Zero is never the id of a live body.
pub type BodyId = u32;

/// Ids of bodies.
pub type BodiesIds = HashSet<BodyId>;

/// Bodies of one kind by id.
pub type Bodies<B> = HashMap<BodyId, B>;

/// Largest identifier a body may carry: the pair key keeps the larger id of
/// a pair in its low 26 bits.
pub const MAX_BODY_ID: u32 = 0x3FF_FFFF;

/// Collision class of a body. It is fixed when the body is created.
#[derive(Copy, Clone, PartialEq, Eq, Structural, Debug)]
pub enum BodyClass {
    Fixed,
    Sensor,
    Player,
    Ray,
    Item,
    Bullet,
}

/// What every kind of body offers to the tick: integrating its motion over
/// the elapsed time, and writing its box into its collision record.
pub trait Body: Sized {
    /// The state is one that the body's own operations produce.
    spec fn valid(&self) -> bool;

    /// The body after its motion over `elapsed` microseconds.
    spec fn stepped(&self, elapsed: u64) -> Self;

    /// Integration will mark the collision record as changed.
    spec fn active(&self) -> bool;

    /// The collision record once the body has written its box into it.
    spec fn placed(&self, rect: Rect) -> Rect;

    /// Integrates the motion over `elapsed` microseconds. The record is
    /// rewritten when it was marked as changed or the body is active.
    fn update(&mut self, elapsed: u64, rect: &mut Rect)
        requires
            old(self).valid(),
        ensures
            final(self).valid(),
            *final(self) == old(self).stepped(elapsed),
            *final(rect) == (if old(rect).is_updated || old(self).active() {
                final(self).placed(Rect { is_updated: true, ..*old(rect) })
            } else {
                *old(rect)
            }),
    ;

    /// Writes the box of the body into its collision record.
    fn update_rect(&mut self, rect: &mut Rect)
        requires
            old(self).valid(),
        ensures
            *final(self) == *old(self),
            *final(rect) == old(self).placed(*old(rect)),
    ;
}

} // verus!
