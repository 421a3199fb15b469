//! The flight of an arrow under constant gravity.
use crate::fixed::{
    clamp, clamp_spec, floor_div, lemma_product_within, lemma_quotient_within, within, ONE,
};
use crate::series::{cos_sin, cos_spec, lemma_cos_sin_at_zero, sin_spec};
use crate::vector::{Point, Vec2};
use vstd::prelude::*;

verus! {

/// The fastest launch that a flight is computed for: ten million units a
/// second.
pub const SPEED_LIMIT: i64 = 10_000_000_000_000;

/// The longest time that a flight is computed for: a thousand seconds.
pub const TIME_LIMIT: i64 = 1_000_000_000;

/// The farthest from the origin that an arrow may start: a million million
/// units on either axis.
pub const START_LIMIT: i64 = 1_000_000_000_000_000_000;

/// How far an arrow has travelled horizontally after `t`:
/// `4 * velocity * t * cosine`.
pub open spec fn flight_x(velocity: int, cosine: int, t: int) -> int {
    4 * (velocity * t * cosine) / (ONE * ONE)
}

/// How far an arrow has risen after `t`:
/// `4 * velocity * t * sine - 2 * 9 * t * t`.
pub open spec fn flight_y(velocity: int, sine: int, t: int) -> int {
    (4 * (velocity * t * sine) - 18 * (t * t) * ONE) / (ONE * ONE)
}

/// The displacement of an arrow launched at `velocity` in the direction
/// `(cosine, sine)`, after `t`.
pub open spec fn flight_spec(velocity: int, cosine: int, sine: int, t: int) -> Point {
    Point { x: flight_x(velocity, cosine, t), y: flight_y(velocity, sine, t) }
}

/// The displacement of an arrow launched at `velocity` and `angle`, after `t`.
pub open spec fn trajectory_spec(velocity: int, angle: int, t: int) -> Point {
    flight_spec(velocity, cos_spec(angle), sin_spec(angle), t)
}

/// The most that speed times time may come to, for a flight whose
/// coordinates an `i64` is to hold.
pub open spec fn travel_limit() -> int {
    SPEED_LIMIT * TIME_LIMIT
}

/// Whether a flight at `velocity` for `t` stays within what an `i64` holds:
/// the time is within `TIME_LIMIT` and speed times time within
/// `travel_limit()`. Any speed up to `SPEED_LIMIT` will do, and at time zero
/// any speed at all.
pub open spec fn can_fly(velocity: int, t: int) -> bool {
    within(t, TIME_LIMIT as int) && within(velocity * t, travel_limit())
}

/// A speed within `SPEED_LIMIT` can be flown at for any time within
/// `TIME_LIMIT`, and any speed for no time.
pub proof fn lemma_can_fly(velocity: int, t: int)
    ensures
        within(velocity, SPEED_LIMIT as int) && within(t, TIME_LIMIT as int) ==> can_fly(
            velocity,
            t,
        ),
        can_fly(velocity, 0),
{
    if within(velocity, SPEED_LIMIT as int) && within(t, TIME_LIMIT as int) {
        lemma_product_within(velocity, t, SPEED_LIMIT as int, TIME_LIMIT as int);
    }
    assert(velocity * 0 == 0) by (nonlinear_arith);
}

/// A flight that can be flown leaves the box of `4 * 10^16 + 10^15`
/// millionths around its start on neither axis.
pub proof fn lemma_flight_within(velocity: int, cosine: int, sine: int, t: int)
    requires
        can_fly(velocity, t),
        within(cosine, ONE as int),
        within(sine, ONE as int),
    ensures
        within(flight_x(velocity, cosine, t), 40_000_000_000_000_000),
        within(flight_y(velocity, sine, t), 41_000_000_000_000_000),
{
    lemma_product_within(velocity * t, cosine, travel_limit(), ONE as int);
    lemma_product_within(velocity * t, sine, travel_limit(), ONE as int);
    lemma_product_within(t, t, TIME_LIMIT as int, TIME_LIMIT as int);
    assert(0 <= t * t) by (nonlinear_arith);
    lemma_quotient_within(
        4 * (velocity * t * cosine),
        ONE * ONE,
        40_000_000_000_000_000,
    );
    lemma_quotient_within(
        4 * (velocity * t * sine) - 18 * (t * t) * ONE,
        ONE * ONE,
        41_000_000_000_000_000,
    );
}

/// The displacement of an arrow launched at `velocity` in the direction
/// `(cosine, sine)`, after `t`, for speeds beyond what an `i64` holds: the
/// two coordinates come back as wide integers.
pub fn flight_wide(velocity: i128, cosine: i64, sine: i64, t: i64) -> (d: (i128, i128))
    requires
        within(velocity as int, 100_000_000_000_000_000_000),
        within(t as int, TIME_LIMIT as int),
        within(cosine as int, ONE as int),
        within(sine as int, ONE as int),
    ensures
        d.0 == flight_x(velocity as int, cosine as int, t as int),
        d.1 == flight_y(velocity as int, sine as int, t as int),
        within(d.0 as int, 500_000_000_000_000_000_000_000),
        within(d.1 as int, 500_000_000_000_000_000_000_000),
{
    proof {
        let v = velocity as int;
        let wide = 100_000_000_000_000_000_000_000_000_000int;
        lemma_product_within(v, t as int, 100_000_000_000_000_000_000, TIME_LIMIT as int);
        lemma_product_within(v * t, cosine as int, wide, ONE as int);
        lemma_product_within(v * t, sine as int, wide, ONE as int);
        lemma_product_within(t as int, t as int, TIME_LIMIT as int, TIME_LIMIT as int);
        assert(0 <= t * t) by (nonlinear_arith);
        lemma_quotient_within(
            4 * (v * t * cosine),
            ONE * ONE,
            500_000_000_000_000_000_000_000,
        );
        lemma_quotient_within(
            4 * (v * t * sine) - 18 * (t * t) * ONE,
            ONE * ONE,
            500_000_000_000_000_000_000_000,
        );
    }
    let vt: i128 = velocity * t as i128;
    let along: i128 = vt * cosine as i128;
    let up: i128 = vt * sine as i128;
    let tt: i128 = t as i128 * t as i128;
    let scale: i128 = ONE as i128 * ONE as i128;
    let x = floor_div(4 * along, scale);
    let y = floor_div(4 * up - 18 * tt * ONE as i128, scale);
    (x, y)
}

/// The displacement of an arrow launched at `velocity` in the direction
/// `(cosine, sine)`, after `t`.
pub fn flight(velocity: i64, cosine: i64, sine: i64, t: i64) -> (d: Vec2)
    requires
        can_fly(velocity as int, t as int),
        within(cosine as int, ONE as int),
        within(sine as int, ONE as int),
    ensures
        d@ == flight_spec(velocity as int, cosine as int, sine as int, t as int),
        within(d.x as int, 40_000_000_000_000_000),
        within(d.y as int, 41_000_000_000_000_000),
{
    proof {
        lemma_flight_within(velocity as int, cosine as int, sine as int, t as int);
    }
    let (x, y) = flight_wide(velocity as i128, cosine, sine, t);
    Vec2 { x: x as i64, y: y as i64 }
}

/// An arrow in flight: where and how it was launched, and for how long it
/// has flown.
#[derive(Clone, Copy, Debug)]
pub struct Arrow {
    owner: u64,
    is_moving: bool,
    start_pos: Vec2,
    velocity: i64,
    angle: i64,
    current_time: i64,
}

/// What an `Arrow` holds, for use in contracts.
pub struct ArrowModel {
    pub owner: u64,
    pub is_moving: bool,
    pub start_pos: Point,
    pub velocity: int,
    pub angle: int,
    pub current_time: int,
}

impl ArrowModel {
    /// The launch is within the limits for which flights are computed.
    pub open spec fn wf(self) -> bool {
        &&& within(self.velocity, SPEED_LIMIT as int)
        &&& within(self.start_pos.x, START_LIMIT as int)
        &&& within(self.start_pos.y, START_LIMIT as int)
        &&& 0 <= self.current_time <= TIME_LIMIT
    }

    /// Where the arrow is after `time`.
    pub open spec fn pos_at_time(self, time: int) -> Point {
        self.start_pos.plus(trajectory_spec(self.velocity, self.angle, time))
    }
}

impl View for Arrow {
    type V = ArrowModel;

    closed spec fn view(&self) -> ArrowModel {
        ArrowModel {
            owner: self.owner,
            is_moving: self.is_moving,
            start_pos: self.start_pos@,
            velocity: self.velocity as int,
            angle: self.angle as int,
            current_time: self.current_time as int,
        }
    }
}

impl Arrow {
    /// A moving arrow that has just left `start_pos`.
    pub fn new(owner: u64, start_pos: Vec2, velocity: i64, angle: i64) -> (a: Self)
        requires
            within(velocity as int, SPEED_LIMIT as int),
            within(start_pos.x as int, START_LIMIT as int),
            within(start_pos.y as int, START_LIMIT as int),
        ensures
            a@ == (ArrowModel {
                owner,
                is_moving: true,
                start_pos: start_pos@,
                velocity: velocity as int,
                angle: angle as int,
                current_time: 0,
            }),
            a@.wf(),
    {
        Self { owner, is_moving: true, start_pos, velocity, angle, current_time: 0 }
    }

    /// The entity that shot the arrow.
    pub fn owner(&self) -> (o: u64)
        ensures
            o == self@.owner,
    {
        self.owner
    }

    /// Whether the arrow is still flying.
    pub fn is_moving(&self) -> (m: bool)
        ensures
            m == self@.is_moving,
    {
        self.is_moving
    }

    /// For how long the arrow has flown.
    pub fn current_time(&self) -> (t: i64)
        ensures
            t == self@.current_time,
    {
        self.current_time
    }

    /// Lets the arrow fly on, or stops it where it is.
    pub fn set_moving(&mut self, value: bool)
        ensures
            final(self)@ == (ArrowModel { is_moving: value, ..old(self)@ }),
    {
        self.is_moving = value;
    }

    /// Adds `elapsed` to the time flown, which stays within
    /// `0..=TIME_LIMIT`, and returns where the arrow then is.
    pub fn advance(&mut self, elapsed: i64) -> (pos: Vec2)
        requires
            old(self)@.wf(),
        ensures
            final(self)@ == (ArrowModel {
                current_time: clamp_spec(
                    old(self)@.current_time + elapsed,
                    0,
                    TIME_LIMIT as int,
                ),
                ..old(self)@
            }),
            final(self)@.wf(),
            pos@ == final(self)@.pos_at_time(final(self)@.current_time),
    {
        self.current_time = clamp(
            self.current_time as i128 + elapsed as i128,
            0,
            TIME_LIMIT,
        );
        self.pos_at_time(self.current_time)
    }

    /// Where the arrow is after `time`.
    pub fn pos_at_time(&self, time: i64) -> (pos: Vec2)
        requires
            self@.wf(),
            within(time as int, TIME_LIMIT as int),
        ensures
            pos@ == self@.pos_at_time(time as int),
    {
        proof {
            lemma_can_fly(self.velocity as int, time as int);
        }
        let mut position = Arrow::get_trajectory(self.velocity, self.angle, time);
        position.x += self.start_pos.x;
        position.y += self.start_pos.y;
        position
    }

    /// The displacement of an arrow launched at `velocity` and `angle`, after
    /// `t`: `x = 4 * velocity * t * cos(angle)` and
    /// `y = 4 * velocity * t * sin(angle) - 18 * t * t`.
    pub fn get_trajectory(velocity: i64, angle: i64, t: i64) -> (d: Vec2)
        requires
            can_fly(velocity as int, t as int),
        ensures
            d@ == trajectory_spec(velocity as int, angle as int, t as int),
            t == 0 ==> d@ == Point::zero(),
            within(d.x as int, 40_000_000_000_000_000),
            within(d.y as int, 41_000_000_000_000_000),
    {
        proof {
            lemma_trajectory_starts_at_origin(velocity as int, angle as int);
        }
        let (cosine, sine) = cos_sin(angle);
        flight(velocity, cosine, sine, t)
    }
}

/// At time zero an arrow has not moved, whatever its speed and direction.
pub proof fn lemma_trajectory_starts_at_origin(velocity: int, angle: int)
    ensures
        trajectory_spec(velocity, angle, 0) == Point::zero(),
{
    assert(velocity * 0 * cos_spec(angle) == 0) by (nonlinear_arith);
    assert(velocity * 0 * sin_spec(angle) == 0) by (nonlinear_arith);
}

/// An arrow shot level neither rises nor drifts off its line: it advances by
/// `4 * velocity * t` and falls by `18 * t * t`.
pub proof fn lemma_trajectory_level(velocity: int, t: int)
    ensures
        trajectory_spec(velocity, 0, t).x == 4 * (velocity * t) / (ONE as int),
        trajectory_spec(velocity, 0, t).y == -18 * (t * t) / (ONE as int),
{
    lemma_cos_sin_at_zero();
    let vt = velocity * t;
    assert(vt * ONE == ONE * vt) by (nonlinear_arith);
    assert(vt * 0 == 0) by (nonlinear_arith);
    let tt = t * t;
    assert(18 * tt * ONE == 1_000_000 * (18 * tt)) by (nonlinear_arith);
    assert((0 - 1_000_000 * (18 * tt)) / 1_000_000_000_000 == -18 * tt / 1_000_000);
}

/// The magnitude of `x`.
pub open spec fn magnitude(x: int) -> int {
    if x < 0 {
        -x
    } else {
        x
    }
}

/// The change of `v * t * c` between two times is `v * (t2 - t1) * c`, and
/// with `c` within `ONE` it is within `|v| * (t2 - t1) * ONE`.
proof fn lemma_drift_within(v: int, c: int, t1: int, t2: int)
    by (nonlinear_arith)
    requires
        within(c, ONE as int),
        t1 <= t2,
    ensures
        v * t2 * c - v * t1 * c == v * (t2 - t1) * c,
        within(v * (t2 - t1) * c, magnitude(v) * (t2 - t1) * ONE),
        0 <= magnitude(v) * (t2 - t1),
{
}

/// The difference of two squares.
proof fn lemma_square_difference(t1: int, t2: int)
    by (nonlinear_arith)
    requires
        0 <= t1 <= t2,
    ensures
        t2 * t2 - t1 * t1 == (t2 - t1) * (t1 + t2),
        0 <= (t2 - t1) * (t1 + t2),
{
}

/// An arrow does not jump: between two times its horizontal position changes
/// by at most `4 * |velocity| * (t2 - t1)`, up to one millionth for each of
/// the two roundings.
pub proof fn lemma_flight_x_steady(velocity: int, cosine: int, t1: int, t2: int)
    requires
        within(cosine, ONE as int),
        t1 <= t2,
    ensures
        within(
            flight_x(velocity, cosine, t2) - flight_x(velocity, cosine, t1),
            4 * (magnitude(velocity) * (t2 - t1)) / (ONE as int) + 1,
        ),
{
    lemma_drift_within(velocity, cosine, t1, t2);
    assert(magnitude(velocity) * (t2 - t1) * ONE == 1_000_000 * (magnitude(velocity) * (t2
        - t1))) by (nonlinear_arith);
}

/// An arrow does not jump: between two times from the launch on, its height
/// changes by at most `(4 * |velocity| + 18 * (t1 + t2)) * (t2 - t1)`, up to
/// one millionth for each of the two roundings.
pub proof fn lemma_flight_y_steady(velocity: int, sine: int, t1: int, t2: int)
    requires
        within(sine, ONE as int),
        0 <= t1 <= t2,
    ensures
        within(
            flight_y(velocity, sine, t2) - flight_y(velocity, sine, t1),
            (4 * (magnitude(velocity) * (t2 - t1)) + 18 * ((t2 - t1) * (t1 + t2))) / (ONE as int)
                + 1,
        ),
{
    lemma_drift_within(velocity, sine, t1, t2);
    lemma_square_difference(t1, t2);
    let fall = (t2 - t1) * (t1 + t2);
    assert(magnitude(velocity) * (t2 - t1) * ONE == 1_000_000 * (magnitude(velocity) * (t2
        - t1))) by (nonlinear_arith);
    assert(18 * (t2 * t2) * ONE - 18 * (t1 * t1) * ONE == 1_000_000 * (18 * fall))
        by (nonlinear_arith)
        requires
            t2 * t2 - t1 * t1 == fall,
    ;
}

} // verus!
