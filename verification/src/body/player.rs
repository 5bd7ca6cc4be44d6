use vstd::prelude::*;
use crate::body::Body;
use crate::engine::{Bounds, Direction, Rect, Vector};

verus! {

pub const BODY_PLAYER_WIDTH: i32 = 64;

pub const BODY_PLAYER_HALF_WIDTH: i32 = 32;

pub const BODY_PLAYER_HEIGHT: i32 = 208;

/// Height of a jump at its apex.
pub const BODY_PLAYER_JUMP_DISTANCE: i32 = 160;

/// Horizontal speed of a running player, in units per second.
pub const BODY_PLAYER_MOVE_SPEED: i32 = 750;

/// Time is counted in microseconds.
pub const TIME_UNITS_PER_SECOND: u64 = 1_000_000;

/// Time from the start of a jump to its apex.
pub const BODY_PLAYER_JUMP_COEF: u64 = 400_000;

/// Gravity: a body that has fallen for `t` microseconds has dropped by
/// `t * t` divided by this scale, which is 0.001 units per square
/// millisecond.
pub const BODY_PLAYER_GRAVITY_SCALE: u64 = 1_000_000_000;

/// Positions are confined to this distance from the origin on each axis.
pub const COORD_LIMIT: i32 = 0x2000_0000;

/// The nearest position inside the coordinate range.
pub open spec fn clamp_coord(v: int) -> int {
    if v < -(COORD_LIMIT as int) {
        -(COORD_LIMIT as int)
    } else if v > COORD_LIMIT {
        COORD_LIMIT as int
    } else {
        v
    }
}

pub open spec fn coord_ok(v: int) -> bool {
    -(COORD_LIMIT as int) <= v <= COORD_LIMIT
}

/// Distance covered in `elapsed` microseconds at `force` units per second,
/// the fraction of a unit dropped.
pub open spec fn run_offset(force: int, elapsed: int) -> int {
    if force >= 0 {
        force * elapsed / (TIME_UNITS_PER_SECOND as int)
    } else {
        -((-force) * elapsed / (TIME_UNITS_PER_SECOND as int))
    }
}

/// Height above the launch height, counted downwards, of a jump that has
/// lasted `timer` microseconds: a parabola with its apex at the jump
/// distance, the fraction of a unit dropped.
pub open spec fn jump_rise(timer: int) -> int {
    (timer - BODY_PLAYER_JUMP_COEF) * (timer - BODY_PLAYER_JUMP_COEF) / (
    BODY_PLAYER_GRAVITY_SCALE as int) - BODY_PLAYER_JUMP_DISTANCE
}

/// Drop of a fall that has lasted `timer` microseconds.
pub open spec fn fall_drop(timer: int) -> int {
    timer * timer / (BODY_PLAYER_GRAVITY_SCALE as int)
}

/// A timer that has run for `elapsed` more microseconds; it stops at the
/// largest value it can hold.
pub open spec fn timer_after(timer: u64, elapsed: u64) -> u64 {
    if timer + elapsed > u64::MAX {
        u64::MAX
    } else {
        (timer + elapsed) as u64
    }
}

/// Speed that a grounded player has with the given intent.
pub open spec fn run_speed(direction: Direction) -> int {
    BODY_PLAYER_MOVE_SPEED * direction.sign()
}

/// Kinematic state of a player. `x` is the horizontal centre of its box,
/// `y` the lower edge; `y` grows downwards.
#[derive(Copy, Clone, Debug)]
pub struct BodyPlayer {
    pub x: i32,
    pub y: i32,
    /// Position at the end of the previous tick.
    pub prev_x: i32,
    pub prev_y: i32,
    /// Horizontal speed in units per second.
    pub force_x: i32,
    /// Height at which the current jump or fall began.
    pub last_ground_y: i32,
    pub is_jump: bool,
    /// Microseconds since the jump began.
    pub jump_timer: u64,
    /// The speed was already halved while airborne.
    pub jump_x_decreased: bool,
    /// An intent was already applied while airborne.
    pub jump_x_setted: bool,
    pub is_fall: bool,
    /// Microseconds since the fall began.
    pub fall_timer: u64,
    /// Vertical direction of the last integration: -1 up, 1 down, 0 none.
    pub move_dir_y: i8,
    pub is_on_ground: bool,
    pub move_state: Direction,
    /// The terrain corrected the position during the current tick.
    pub current_tick_corrected: bool,
}

/// `base + offset`, confined to the coordinate range.
pub fn shifted(base: i32, offset: i128) -> (r: i32)
    requires
        -0x4000_0000_0000_0000_0000_0000_0000_0000 <= offset <= 0x4000_0000_0000_0000_0000_0000_0000_0000,
    ensures
        r == clamp_coord(base + offset),
{
    let sum: i128 = base as i128 + offset;
    if sum < -(COORD_LIMIT as i128) {
        -COORD_LIMIT
    } else if sum > COORD_LIMIT as i128 {
        COORD_LIMIT
    } else {
        sum as i32
    }
}

/// The square of `d`, divided by the gravity scale.
fn scaled_square(d: u64) -> (q: i128)
    ensures
        q == (d as int) * (d as int) / (BODY_PLAYER_GRAVITY_SCALE as int),
        0 <= q <= 0x1_0000_0000_0000_0000_0000_0000_0000,
{
    assert(0 <= (d as int) * (d as int) <= 0xFFFF_FFFF_FFFF_FFFF * 0xFFFF_FFFF_FFFF_FFFF)
        by (nonlinear_arith)
        requires
            0 <= d <= 0xFFFF_FFFF_FFFF_FFFF,
    ;
    let s: u128 = (d as u128) * (d as u128);
    (s / (BODY_PLAYER_GRAVITY_SCALE as u128)) as i128
}

/// Distance covered in `elapsed` microseconds at `force` units per second.
fn run_distance(force: i32, elapsed: u64) -> (d: i128)
    requires
        -(BODY_PLAYER_MOVE_SPEED as int) <= force <= BODY_PLAYER_MOVE_SPEED,
    ensures
        d == run_offset(force as int, elapsed as int),
        -0x4000_0000_0000_0000_0000_0000 <= d <= 0x4000_0000_0000_0000_0000_0000,
{
    if force >= 0 {
        assert(0 <= (force as int) * (elapsed as int) <= 750 * 0xFFFF_FFFF_FFFF_FFFF)
            by (nonlinear_arith)
            requires
                0 <= force <= 750,
                0 <= elapsed <= 0xFFFF_FFFF_FFFF_FFFF,
        ;
        let product: u128 = (force as u128) * (elapsed as u128);
        (product / (TIME_UNITS_PER_SECOND as u128)) as i128
    } else {
        assert(0 <= (-(force as int)) * (elapsed as int) <= 750 * 0xFFFF_FFFF_FFFF_FFFF)
            by (nonlinear_arith)
            requires
                -750 <= force < 0,
                0 <= elapsed <= 0xFFFF_FFFF_FFFF_FFFF,
        ;
        let product: u128 = ((-force) as u128) * (elapsed as u128);
        -((product / (TIME_UNITS_PER_SECOND as u128)) as i128)
    }
}

impl BodyPlayer {
    /// The state is one that the operations below reach from `new`:
    /// positions lie in the coordinate range; a player is grounded, jumping
    /// or falling, at most one of the three; the speed is zero, half or full
    /// speed, half speed only after the airborne halving or the airborne
    /// intent; a grounded player moves at the speed of its intent.
    pub open spec fn wf(&self) -> bool {
        &&& coord_ok(self.x as int)
        &&& coord_ok(self.y as int)
        &&& coord_ok(self.prev_x as int)
        &&& coord_ok(self.prev_y as int)
        &&& coord_ok(self.last_ground_y as int)
        &&& !(self.is_jump && self.is_fall)
        &&& self.is_on_ground ==> !self.is_jump && !self.is_fall
        &&& self.is_on_ground ==> self.force_x == run_speed(self.move_state)
        &&& (self.force_x == 0 || self.force_x == BODY_PLAYER_MOVE_SPEED || self.force_x
            == -BODY_PLAYER_MOVE_SPEED || self.force_x == BODY_PLAYER_MOVE_SPEED / 2
            || self.force_x == -(BODY_PLAYER_MOVE_SPEED / 2))
        &&& !self.jump_x_decreased ==> (self.force_x == 0 || self.force_x
            == BODY_PLAYER_MOVE_SPEED || self.force_x == -BODY_PLAYER_MOVE_SPEED)
        &&& -1 <= self.move_dir_y <= 1
    }

    /// The box of a player that stands at `(x, y)`: `x` is its horizontal
    /// centre, `y` its lower edge.
    pub open spec fn box_at(x: int, y: int) -> Bounds {
        crate::engine::box_around(x, y, BODY_PLAYER_HALF_WIDTH as int, BODY_PLAYER_HEIGHT as int)
    }

    /// The box of the player where it stands.
    pub open spec fn bounds(self) -> Bounds {
        Self::box_at(self.x as int, self.y as int)
    }

    /// The box of the player where it stood at the end of the previous tick.
    pub open spec fn prev_bounds(self) -> Bounds {
        Self::box_at(self.prev_x as int, self.prev_y as int)
    }

    /// The state after the intent changed to `direction`. On the ground the
    /// speed follows at once. In the air the first change sets half the
    /// speed, later ones only record the intent.
    pub open spec fn ran(self, direction: Direction) -> BodyPlayer {
        if self.move_state == direction {
            self
        } else if !self.is_on_ground {
            if !self.jump_x_setted {
                BodyPlayer {
                    move_state: direction,
                    jump_x_setted: true,
                    jump_x_decreased: true,
                    force_x: (run_speed(direction) / 2) as i32,
                    ..self
                }
            } else {
                BodyPlayer { move_state: direction, ..self }
            }
        } else {
            BodyPlayer { move_state: direction, force_x: run_speed(direction) as i32, ..self }
        }
    }

    /// The state after a jump was asked for: only a grounded player jumps.
    pub open spec fn jumped(self) -> BodyPlayer {
        if !self.is_on_ground {
            self
        } else {
            BodyPlayer {
                is_jump: true,
                jump_timer: 0,
                last_ground_y: self.y,
                is_on_ground: false,
                jump_x_setted: self.move_state != Direction::Idle,
                ..self
            }
        }
    }

    /// The state after the motion over `elapsed` microseconds, before the
    /// terrain has its say.
    pub open spec fn integrated(self, elapsed: u64) -> BodyPlayer {
        let jump_timer = if self.is_jump {
            timer_after(self.jump_timer, elapsed)
        } else {
            self.jump_timer
        };
        let fall_timer = if self.is_fall {
            timer_after(self.fall_timer, elapsed)
        } else {
            self.fall_timer
        };
        BodyPlayer {
            current_tick_corrected: false,
            x: clamp_coord(self.x + run_offset(self.force_x as int, elapsed as int)) as i32,
            y: (if self.is_fall {
                clamp_coord(self.last_ground_y + fall_drop(fall_timer as int))
            } else if self.is_jump {
                clamp_coord(self.last_ground_y + jump_rise(jump_timer as int))
            } else if self.is_on_ground {
                clamp_coord(self.y + 1)
            } else {
                self.y as int
            }) as i32,
            jump_timer,
            fall_timer,
            move_dir_y: if self.is_fall {
                1i8
            } else if self.is_jump {
                if jump_timer > BODY_PLAYER_JUMP_COEF {
                    1i8
                } else {
                    -1i8
                }
            } else {
                0i8
            },
            ..self
        }
    }

    /// Whether the integration moves the player or may do so: a grounded
    /// player is nudged down, one with speed runs, one in the air rises or
    /// falls.
    pub open spec fn in_motion(self) -> bool {
        self.is_on_ground || self.force_x != 0 || self.is_jump || self.is_fall
    }

    /// The state after the terrain pushed the player by `correction`.
    /// A push to the side in the air halves the speed, once per airborne
    /// interval. A push upwards lands the player, which then runs on with
    /// its intent. A push downwards ends a jump. A push to the side alone
    /// takes the ground away.
    pub open spec fn corrected(self, correction: Vector) -> BodyPlayer {
        let halve = correction.x != 0 && !self.is_on_ground && !self.jump_x_decreased;
        let force_x = if halve {
            self.force_x / 2
        } else {
            self.force_x as int
        };
        let jump_x_decreased = self.jump_x_decreased || halve;
        if correction.y < 0 {
            BodyPlayer {
                current_tick_corrected: true,
                is_on_ground: true,
                is_jump: false,
                jump_timer: 0,
                jump_x_decreased: false,
                jump_x_setted: false,
                is_fall: false,
                fall_timer: 0,
                force_x: run_speed(self.move_state) as i32,
                ..self
            }
        } else if correction.y > 0 {
            BodyPlayer {
                current_tick_corrected: true,
                force_x: force_x as i32,
                jump_x_decreased,
                is_jump: false,
                jump_timer: 0,
                ..self
            }
        } else {
            BodyPlayer {
                current_tick_corrected: true,
                force_x: force_x as i32,
                jump_x_decreased,
                is_on_ground: false,
                ..self
            }
        }
    }

    /// The state at the end of a tick. Without a correction in this tick
    /// the player is no longer grounded; a player that is then neither
    /// grounded nor jumping begins to fall from where it is, drifting at
    /// full speed with its intent.
    pub open spec fn settled(self) -> BodyPlayer {
        let grounded = self.is_on_ground && self.current_tick_corrected;
        if !grounded && !self.is_jump && !self.is_fall {
            BodyPlayer {
                is_on_ground: false,
                is_fall: true,
                fall_timer: 0,
                last_ground_y: self.y,
                jump_x_setted: self.move_state != Direction::Idle,
                force_x: if self.move_state == Direction::Idle {
                    self.force_x
                } else {
                    run_speed(self.move_state) as i32
                },
                ..self
            }
        } else {
            BodyPlayer { is_on_ground: grounded, ..self }
        }
    }

    /// A player at rest at `(x, y)`, not yet on the ground.
    pub fn new(x: i32, y: i32) -> (player: BodyPlayer)
        requires
            coord_ok(x as int),
            coord_ok(y as int),
        ensures
            player.wf(),
            player == (BodyPlayer {
                x,
                y,
                prev_x: x,
                prev_y: y,
                force_x: 0,
                last_ground_y: y,
                is_jump: false,
                jump_timer: 0,
                jump_x_decreased: false,
                jump_x_setted: false,
                is_fall: false,
                fall_timer: 0,
                move_dir_y: 0,
                is_on_ground: false,
                move_state: Direction::Idle,
                current_tick_corrected: false,
            }),
    {
        BodyPlayer {
            x,
            y,
            prev_x: x,
            prev_y: y,
            force_x: 0,
            last_ground_y: y,
            is_jump: false,
            jump_timer: 0,
            jump_x_decreased: false,
            jump_x_setted: false,
            is_fall: false,
            fall_timer: 0,
            move_dir_y: 0,
            is_on_ground: false,
            move_state: Direction::Idle,
            current_tick_corrected: false,
        }
    }

    /// Records that the terrain pushed the player by `correction`.
    pub fn update_correction(&mut self, correction: &Vector)
        requires
            old(self).wf(),
        ensures
            final(self).wf(),
            *final(self) == old(self).corrected(*correction),
    {
        self.current_tick_corrected = true;
        if correction.x != 0 && !self.is_on_ground && !self.jump_x_decreased {
            self.force_x = self.force_x / 2;
            self.jump_x_decreased = true;
        }
        if correction.y < 0 {
            self.is_on_ground = true;
            self.is_jump = false;
            self.jump_timer = 0;
            self.jump_x_decreased = false;
            self.jump_x_setted = false;
            self.is_fall = false;
            self.fall_timer = 0;
            match self.move_state {
                Direction::Idle => {
                    self.force_x = 0;
                },
                _ => {
                    let move_state = self.move_state;
                    self.move_state = Direction::Idle;
                    self.force_x = 0;
                    self.run(move_state);
                },
            }
        } else if correction.y > 0 {
            self.is_jump = false;
            self.jump_timer = 0;
        } else {
            self.is_on_ground = false;
        }
    }

    /// Ends the tick for the player.
    pub fn after_update(&mut self)
        requires
            old(self).wf(),
        ensures
            final(self).wf(),
            *final(self) == old(self).settled(),
    {
        if !self.current_tick_corrected {
            self.is_on_ground = false;
        }
        if !self.is_on_ground && !self.is_jump && !self.is_fall {
            self.is_fall = true;
            self.fall_timer = 0;
            self.last_ground_y = self.y;
            self.jump_x_setted = match self.move_state {
                Direction::Idle => false,
                _ => true,
            };
            match self.move_state {
                Direction::Idle => {},
                Direction::Left => {
                    self.force_x = -BODY_PLAYER_MOVE_SPEED;
                },
                Direction::Right => {
                    self.force_x = BODY_PLAYER_MOVE_SPEED;
                },
            }
        }
    }

    /// Sets the horizontal intent.
    pub fn run(&mut self, direction: Direction)
        requires
            old(self).wf(),
        ensures
            final(self).wf(),
            *final(self) == old(self).ran(direction),
    {
        if self.move_state == direction {
            return ;
        }
        self.move_state = direction;
        let direction_num: i32 = match direction {
            Direction::Idle => 0,
            Direction::Left => -1,
            Direction::Right => 1,
        };
        if !self.is_on_ground {
            if !self.jump_x_setted {
                self.jump_x_setted = true;
                self.jump_x_decreased = true;
                self.force_x = BODY_PLAYER_MOVE_SPEED * direction_num / 2;
            }
            return ;
        }
        self.force_x = BODY_PLAYER_MOVE_SPEED * direction_num;
    }

    /// Starts a jump if the player stands on the ground.
    pub fn jump(&mut self)
        requires
            old(self).wf(),
        ensures
            final(self).wf(),
            *final(self) == old(self).jumped(),
    {
        if !self.is_on_ground {
            return ;
        }
        self.is_jump = true;
        self.jump_timer = 0;
        self.last_ground_y = self.y;
        self.is_on_ground = false;
        self.jump_x_setted = match self.move_state {
            Direction::Idle => false,
            _ => true,
        };
    }
}

impl Body for BodyPlayer {
    open spec fn valid(&self) -> bool {
        self.wf()
    }

    open spec fn stepped(&self, elapsed: u64) -> BodyPlayer {
        self.integrated(elapsed)
    }

    open spec fn active(&self) -> bool {
        self.in_motion()
    }

    open spec fn placed(&self, rect: Rect) -> Rect {
        Rect { bounds: self.bounds(), ..rect }
    }

    fn update(&mut self, elapsed: u64, rect: &mut Rect) {
        self.current_tick_corrected = false;
        if self.is_on_ground {
            rect.is_updated = true;
            self.y = shifted(self.y, 1);
        }
        if self.force_x != 0 {
            rect.is_updated = true;
            self.x = shifted(self.x, run_distance(self.force_x, elapsed));
        }
        self.move_dir_y = 0;
        if self.is_jump {
            self.jump_timer = self.jump_timer.saturating_add(elapsed);
            let from_apex: u64 = if self.jump_timer >= BODY_PLAYER_JUMP_COEF {
                self.jump_timer - BODY_PLAYER_JUMP_COEF
            } else {
                BODY_PLAYER_JUMP_COEF - self.jump_timer
            };
            assert((from_apex as int) * (from_apex as int) == (self.jump_timer
                - BODY_PLAYER_JUMP_COEF) * (self.jump_timer - BODY_PLAYER_JUMP_COEF))
                by (nonlinear_arith)
                requires
                    from_apex == self.jump_timer - BODY_PLAYER_JUMP_COEF || from_apex
                        == BODY_PLAYER_JUMP_COEF - self.jump_timer,
            ;
            self.y = shifted(
                self.last_ground_y,
                scaled_square(from_apex) - BODY_PLAYER_JUMP_DISTANCE as i128,
            );
            self.move_dir_y = if self.jump_timer > BODY_PLAYER_JUMP_COEF {
                1
            } else {
                -1
            };
            rect.is_updated = true;
        }
        if self.is_fall {
            self.fall_timer = self.fall_timer.saturating_add(elapsed);
            self.y = shifted(self.last_ground_y, scaled_square(self.fall_timer));
            self.move_dir_y = 1;
            rect.is_updated = true;
        }
        if rect.is_updated {
            self.update_rect(rect);
        }
    }

    fn update_rect(&mut self, rect: &mut Rect) {
        rect.bounds.min_x = self.x - BODY_PLAYER_HALF_WIDTH;
        rect.bounds.max_x = self.x + BODY_PLAYER_HALF_WIDTH;
        rect.bounds.min_y = self.y - BODY_PLAYER_HEIGHT;
        rect.bounds.max_y = self.y;
    }
}

/// The arc of a jump: it starts and, after twice the time to the apex,
/// ends at the launch height; at the apex the player is the jump distance
/// above it and never higher; rise and descent mirror each other.
pub proof fn lemma_jump_arc(d: int)
    requires
        0 <= d <= BODY_PLAYER_JUMP_COEF,
    ensures
        jump_rise(0) == 0,
        jump_rise(BODY_PLAYER_JUMP_COEF as int) == -BODY_PLAYER_JUMP_DISTANCE,
        jump_rise(2 * BODY_PLAYER_JUMP_COEF) == 0,
        jump_rise(BODY_PLAYER_JUMP_COEF - d) == jump_rise(BODY_PLAYER_JUMP_COEF + d),
        -BODY_PLAYER_JUMP_DISTANCE <= jump_rise(BODY_PLAYER_JUMP_COEF - d) <= 0,
{
    assert((0 - 400_000) * (0 - 400_000) == 160_000_000_000int) by (nonlinear_arith);
    assert((800_000 - 400_000) * (800_000 - 400_000) == 160_000_000_000int) by (nonlinear_arith);
    assert((400_000 - 400_000) * (400_000 - 400_000) == 0int) by (nonlinear_arith);
    assert((400_000 - d - 400_000) * (400_000 - d - 400_000) == (400_000 + d - 400_000) * (400_000
        + d - 400_000)) by (nonlinear_arith);
    assert(0 <= (400_000 - d - 400_000) * (400_000 - d - 400_000) <= 160_000_000_000)
        by (nonlinear_arith)
        requires
            0 <= d <= 400_000,
    ;
}

/// The longer a jump lasts beyond its apex, and the longer a fall lasts,
/// the lower the player is.
pub proof fn lemma_descent_monotonic(earlier: int, later: int)
    requires
        0 <= earlier <= later,
    ensures
        fall_drop(earlier) <= fall_drop(later),
        jump_rise(BODY_PLAYER_JUMP_COEF + earlier) <= jump_rise(BODY_PLAYER_JUMP_COEF + later),
{
    assert(earlier * earlier <= later * later) by (nonlinear_arith)
        requires
            0 <= earlier <= later,
    ;
    assert((400_000 + earlier - 400_000) * (400_000 + earlier - 400_000) <= (400_000 + later
        - 400_000) * (400_000 + later - 400_000)) by (nonlinear_arith)
        requires
            0 <= earlier <= later,
    ;
}

} // verus!
