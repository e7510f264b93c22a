use vstd::prelude::*;

verus! {

/// Arena width, in milli-units.
pub const ARENA_WIDTH: i64 = 1_200_000;

/// Arena height, in milli-units.
pub const ARENA_HEIGHT: i64 = 1_000_000;

/// Margin kept between a random spawn point and the arena edge.
pub const SPAWN_MARGIN: i64 = 10_000;

/// Fixed-point representation of the actuator value 1.0.
pub const ACTUATOR_ONE: i64 = 1_000_000;

/// Neutral motor value (0.5).
pub const ACTUATOR_HALF: i64 = 500_000;

/// Full turn, in micro-radians (2π, truncated).
pub const TAU_MICRO: i64 = 6_283_185;

/// Half turn, in micro-radians (π, truncated).
pub const PI_MICRO: i64 = 3_141_592;

/// Top wheel speed, in arena units per second.
pub const MAX_SPEED: i64 = 100;

/// Turning sensitivity: rotation is the wheel-speed difference divided by this.
pub const TURN_SENSITIVITY: i64 = 40;

/// Minimum delay between two trigger-gated shots of one entity.
pub const FIRE_COOLDOWN_MS: u64 = 1000;

/// Cadence of the autonomous driver's random-direction fire.
pub const AI_FIRE_INTERVAL_MS: u64 = 500;

/// Bounds of the random delay between two waypoint changes of the autonomous driver.
pub const AI_RETARGET_MIN_MS: u64 = 1000;
pub const AI_RETARGET_MAX_MS: u64 = 3000;

/// Distance to its waypoint under which the autonomous driver stops moving.
pub const AI_ARRIVAL_DISTANCE: i64 = 1000;

/// Time-to-live of a bullet.
pub const BULLET_TTL_MS: u64 = 2000;

/// Bullet speed, in arena units per second.
pub const BULLET_SPEED: i64 = 500;

/// Distance in front of the shooter at which a trigger-gated bullet appears, in milli-units.
pub const MUZZLE_OFFSET: i64 = 20_000;

/// Number of obstacles a map holds.
pub const OBSTACLE_COUNT: usize = 25;

/// Health of a new entity.
pub const INITIAL_HEALTH: i32 = 1;

/// A handle into the physics world's body arena: a generational index.
/// Two handles are the same body exactly when both parts are equal.
#[derive(PartialEq, Eq, Structural, Clone, Copy, Debug)]
pub struct BodyId {
    pub index: u32,
    pub generation: u32,
}

/// A position in the arena, in milli-units.
#[derive(PartialEq, Eq, Structural, Clone, Copy, Debug)]
pub struct Point {
    pub x: i64,
    pub y: i64,
}

/// A display color.
#[derive(PartialEq, Eq, Structural, Clone, Copy, Debug)]
pub struct Rgb {
    pub r: u8,
    pub g: u8,
    pub b: u8,
}

/// Gray level of a new entity's color.
pub const DEFAULT_GRAY: u8 = 160;

/// The color of a new entity (light gray).
pub open spec fn default_color() -> Rgb {
    Rgb { r: DEFAULT_GRAY, g: DEFAULT_GRAY, b: DEFAULT_GRAY }
}

pub open spec fn in_arena(p: Point) -> bool {
    0 <= p.x <= ARENA_WIDTH && 0 <= p.y <= ARENA_HEIGHT
}

/// A point where an entity may be placed at random.
pub open spec fn spawnable(p: Point) -> bool {
    SPAWN_MARGIN <= p.x < ARENA_WIDTH - SPAWN_MARGIN && SPAWN_MARGIN <= p.y < ARENA_HEIGHT
        - SPAWN_MARGIN
}

/// An actuator value in `[0, 1]`.
pub open spec fn valid_actuator(v: i64) -> bool {
    0 <= v <= ACTUATOR_ONE
}

/// A controllable robot.
pub struct Entity {
    pub id: u32,
    pub name: String,
    pub score: i32,
    pub health: i32,
    pub handle: BodyId,
    pub is_ai: bool,
    /// Time of the last shot (or of creation), in ms.
    pub last_shot: u64,
    /// Time at which the autonomous driver next picks a waypoint, in ms.
    pub retarget_at: u64,
    pub position: Point,
    /// Chassis heading, in micro-radians, as last reported by the physics world.
    pub heading: i64,
    /// Turret angle relative to the chassis, in micro-radians, in `[0, TAU_MICRO)`.
    pub gun_orientation: i64,
    pub target: Point,
    pub color: Rgb,
    pub motor_left: i64,
    pub motor_right: i64,
    pub gun_trigger: i64,
    pub gun_traverse: i64,
}

impl Entity {
    pub open spec fn wf(&self) -> bool {
        &&& valid_actuator(self.motor_left)
        &&& valid_actuator(self.motor_right)
        &&& valid_actuator(self.gun_trigger)
        &&& valid_actuator(self.gun_traverse)
        &&& 0 <= self.gun_orientation < TAU_MICRO
        &&& 0 <= self.heading < TAU_MICRO
    }

    /// A new entity at `position`, bound to the body `handle`, with neutral
    /// actuators, health 1 and score 0.
    pub fn new(id: u32, name: String, handle: BodyId, is_ai: bool, position: Point, now: u64) -> (r:
        Entity)
        ensures
            r.wf(),
            r.id == id,
            r.name@ == name@,
            r.handle == handle,
            r.is_ai == is_ai,
            r.position == position,
            r.target == position,
            r.score == 0,
            r.health == INITIAL_HEALTH,
            r.last_shot == now,
            r.retarget_at == now,
            r.color == default_color(),
            r.motor_left == ACTUATOR_HALF,
            r.motor_right == ACTUATOR_HALF,
            r.gun_trigger == 0,
            r.gun_traverse == ACTUATOR_HALF,
            r.gun_orientation == 0,
            r.heading == 0,
    {
        Entity {
            id,
            name,
            score: 0,
            health: INITIAL_HEALTH,
            handle,
            is_ai,
            last_shot: now,
            retarget_at: now,
            position,
            heading: 0,
            gun_orientation: 0,
            target: position,
            color: Rgb { r: DEFAULT_GRAY, g: DEFAULT_GRAY, b: DEFAULT_GRAY },
            motor_left: ACTUATOR_HALF,
            motor_right: ACTUATOR_HALF,
            gun_trigger: 0,
            gun_traverse: ACTUATOR_HALF,
        }
    }

    pub fn set_name(&mut self, new_name: String)
        ensures
            final(self).name@ == new_name@,
            *final(self) == (Entity { name: final(self).name, ..*old(self) }),
    {
        self.name = new_name;
    }

    pub fn set_color(&mut self, r: u8, g: u8, b: u8)
        ensures
            *final(self) == (Entity { color: Rgb { r, g, b }, ..*old(self) }),
    {
        self.color = Rgb { r, g, b };
    }
}

/// A short-lived projectile.
pub struct Bullet {
    pub handle: BodyId,
    /// The body of the entity that fired it; kept for identity comparison only.
    pub shooter: BodyId,
    /// Creation time, in ms.
    pub created_at: u64,
    /// Position as last reported by the physics world.
    pub position: Point,
}

impl Bullet {
    pub fn new(handle: BodyId, shooter: BodyId, created_at: u64, position: Point) -> (r: Bullet)
        ensures
            r == (Bullet { handle, shooter, created_at, position }),
    {
        Bullet { handle, shooter, created_at, position }
    }
}

/// A static obstacle: a collider without a body.
pub struct Obstacle {
    pub position: Point,
    /// The obstacle's collider handle in the physics world (index, generation).
    pub collider: BodyId,
}

/// Wheel speed of one motor value, scaled by `ACTUATOR_ONE`:
/// the value mapped from `[0, 1]` to `[-MAX_SPEED, MAX_SPEED]`.
pub open spec fn wheel_speed(motor: int) -> int {
    (motor - ACTUATOR_HALF) * 2 * MAX_SPEED
}

/// Forward speed of the chassis, scaled by `ACTUATOR_ONE` (arena units per second).
pub open spec fn forward_speed(left: int, right: int) -> int {
    (wheel_speed(left) + wheel_speed(right)) / 2
}

/// Rotation speed of the chassis, scaled by `ACTUATOR_ONE` (radians per second).
pub open spec fn rotation_speed(left: int, right: int) -> int {
    (wheel_speed(right) - wheel_speed(left)) / (TURN_SENSITIVITY as int)
}

/// The turret angle of a traverse value: `[0, 1]` mapped onto a full turn, modulo a turn.
pub open spec fn traverse_angle(traverse: int) -> int {
    (traverse * TAU_MICRO / (ACTUATOR_ONE as int)) % (TAU_MICRO as int)
}

/// A kinematic velocity command for one chassis.
#[derive(PartialEq, Eq, Structural, Clone, Copy, Debug)]
pub struct Drive {
    /// Forward speed along the heading, scaled by `ACTUATOR_ONE`.
    pub forward: i64,
    /// Angular speed, scaled by `ACTUATOR_ONE`.
    pub rotation: i64,
}

/// The differential-drive command of two motor values.
pub fn drive_of(left: i64, right: i64) -> (d: Drive)
    requires
        valid_actuator(left),
        valid_actuator(right),
    ensures
        d.forward == forward_speed(left as int, right as int),
        d.rotation == rotation_speed(left as int, right as int),
{
    let ls = (left - ACTUATOR_HALF) * 2 * MAX_SPEED;
    let rs = (right - ACTUATOR_HALF) * 2 * MAX_SPEED;
    Drive { forward: (ls + rs) / 2, rotation: (rs - ls) / TURN_SENSITIVITY }
}

/// The turret angle, in micro-radians, of a traverse value.
pub fn gun_angle_of(traverse: i64) -> (a: i64)
    requires
        valid_actuator(traverse),
    ensures
        a == traverse_angle(traverse as int),
        0 <= a < TAU_MICRO,
{
    proof {
        assert(0 <= traverse * TAU_MICRO <= ACTUATOR_ONE * TAU_MICRO) by (nonlinear_arith)
            requires
                0 <= traverse <= ACTUATOR_ONE,
        ;
    }
    let product = traverse as i128 * TAU_MICRO as i128;
    let scaled = match product.checked_div_euclid(ACTUATOR_ONE as i128) {
        Some(q) => q,
        None => 0,
    };
    let a = match scaled.checked_rem_euclid(TAU_MICRO as i128) {
        Some(m) => m,
        None => 0,
    };
    a as i64
}

/// Adds two angles and brings the sum back into `[0, TAU_MICRO)`.
pub open spec fn angle_sum(a: int, b: int) -> int {
    (a + b) % (TAU_MICRO as int)
}

pub fn add_angles(a: i64, b: i64) -> (r: i64)
    requires
        -4 * TAU_MICRO <= a <= 4 * TAU_MICRO,
        -4 * TAU_MICRO <= b <= 4 * TAU_MICRO,
    ensures
        r == angle_sum(a as int, b as int),
        0 <= r < TAU_MICRO,
{
    let s = a + b;
    match s.checked_rem_euclid(TAU_MICRO) {
        Some(m) => m,
        None => 0,
    }
}

} // verus!
