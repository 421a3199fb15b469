//! What a shot is worth: the arrow is stepped along its flight until it hits
//! a part of the opponent or leaves the field.
use crate::arrow::{flight_wide, flight_y, lemma_trajectory_starts_at_origin, trajectory_spec};
use crate::collision::{box_at, wide_boxes_overlap, RectModel};
use crate::network::NeuralNetwork;
use crate::fixed::{
    floor_div, floor_sqrt, floor_sqrt_spec, lemma_floor_sqrt_at_least, lemma_floor_sqrt_exists,
    lemma_product_within, lemma_quotient_within, wide_limit, within, LIMIT, ONE,
};
use crate::series::{cos_sin, cos_spec, sin_spec};
use crate::vector::{Point, Vec2};
use vstd::prelude::*;

verus! {

/// World units that the whole range of a normalised height spans.
pub const HEIGHT_SPAN: i64 = 14;

/// The world height of a normalised height of zero.
pub const HEIGHT_BASE: i64 = -7_500_000;

/// Where the shooter stands.
pub const SHOOTER_X: i64 = -12_000_000;

/// Where the opponent stands.
pub const TARGET_X: i64 = 12_000_000;

/// From the shooter's feet to the bow, horizontally.
pub const MUZZLE_X: i64 = 300_000;

/// From the shooter's feet to the bow, vertically.
pub const MUZZLE_Y: i64 = 2_100_000;

/// From the bow to the arrow's tip, along the shot.
pub const REACH: i64 = 2_550_000;

/// The width and the height of the arrow's box.
pub const ARROW_SIZE: i64 = 300_000;

/// The width of the box around the legs.
pub const LEGS_WIDTH: i64 = 800_000;

/// The height of the box around the legs.
pub const LEGS_HEIGHT: i64 = 1_200_000;

/// From the opponent's feet to the middle of the legs.
pub const LEGS_RISE: i64 = 700_000;

/// The width of the box around the body.
pub const BODY_WIDTH: i64 = 800_000;

/// The height of the box around the body.
pub const BODY_HEIGHT: i64 = 1_000_000;

/// From the opponent's feet to the middle of the body.
pub const BODY_RISE: i64 = 1_900_000;

/// The width of the box around the head.
pub const HEAD_WIDTH: i64 = 700_000;

/// The height of the box around the head.
pub const HEAD_HEIGHT: i64 = 700_000;

/// From the opponent's feet to the middle of the head.
pub const HEAD_RISE: i64 = 2_800_000;

/// The time between two looks at the arrow: a hundredth of a second.
pub const TIME_STEP: i64 = 10_000;

/// The last step that is looked at; an arrow still in the field then counts
/// as a miss from where it is.
pub const MAX_STEPS: i64 = 10_000;

/// The step by which every arrow has left the field.
pub const DECIDED_BY: i64 = 400;

/// How far the field reaches from the origin on either axis.
pub const FIELD_EDGE: i64 = 12_000_000;

/// The launch speed of a shot drawn at full power.
pub const SPEED_PER_POWER: i64 = 10;

/// What a hit in the head is worth: a full point.
pub const HEAD_REWARD: i64 = 1_000_000;

/// What a hit in the body is worth.
pub const BODY_REWARD: i64 = 800_000;

/// What a hit in the legs is worth.
pub const LEGS_REWARD: i64 = 500_000;

/// The distance from the head beyond which a miss is worth nothing.
pub const NEAR: i64 = 10_000_000;

/// The world height that a normalised height stands for.
pub open spec fn real_height(height: int) -> int {
    HEIGHT_SPAN * height + HEIGHT_BASE
}

/// Where the arrow leaves the bow.
pub open spec fn launch_point(angle: int, self_height: int) -> Point {
    Point {
        x: SHOOTER_X + MUZZLE_X + REACH * cos_spec(angle) / (ONE as int),
        y: real_height(self_height) + MUZZLE_Y + REACH * sin_spec(angle) / (ONE as int),
    }
}

/// The middle of the part of the opponent that lies `rise` above the feet.
pub open spec fn part_center(enemy_height: int, rise: int) -> Point {
    Point { x: TARGET_X as int, y: real_height(enemy_height) + rise }
}

/// The box around the head of an opponent at `enemy_height`.
pub open spec fn head_box(enemy_height: int) -> RectModel {
    box_at(part_center(enemy_height, HEAD_RISE as int), HEAD_WIDTH as int, HEAD_HEIGHT as int)
}

/// The box around the body of an opponent at `enemy_height`.
pub open spec fn body_box(enemy_height: int) -> RectModel {
    box_at(part_center(enemy_height, BODY_RISE as int), BODY_WIDTH as int, BODY_HEIGHT as int)
}

/// The box around the legs of an opponent at `enemy_height`.
pub open spec fn legs_box(enemy_height: int) -> RectModel {
    box_at(part_center(enemy_height, LEGS_RISE as int), LEGS_WIDTH as int, LEGS_HEIGHT as int)
}

/// Where the arrow is at the given step of its flight.
pub open spec fn arrow_point(power: int, angle: int, self_height: int, step: int) -> Point {
    launch_point(angle, self_height).plus(
        trajectory_spec(SPEED_PER_POWER * power, angle, step * TIME_STEP),
    )
}

/// Whether `p` lies beyond an edge of the field.
pub open spec fn out_of_field(p: Point) -> bool {
    p.x > FIELD_EDGE || p.x < -FIELD_EDGE || p.y > FIELD_EDGE || p.y < -FIELD_EDGE
}

/// The length of the displacement `(dx, dy)`, rounded down.
pub open spec fn length(dx: int, dy: int) -> int {
    floor_sqrt_spec(dx * dx + dy * dy)
}

/// What a miss is worth that ends `(dx, dy)` away from the middle of the
/// head: half of what is left of `NEAR` after taking off the distance, as a
/// share of `NEAR`.
pub open spec fn miss_reward_by(dx: int, dy: int) -> int {
    let d = length(dx, dy);
    let capped = if d > NEAR {
        NEAR as int
    } else {
        d
    };
    (NEAR - capped) / 20
}

/// What a miss that ends at `p` is worth, with the middle of the head at
/// `head`.
pub open spec fn miss_reward(p: Point, head: Point) -> int {
    miss_reward_by(p.x - head.x, p.y - head.y)
}

/// What the shot is worth from the given step on, when no step after `last`
/// is looked at: the first step at which the arrow overlaps the head, the
/// body or the legs decides, the head before the body and the body before the
/// legs; a step at which it has left the field, or the last step, makes it a
/// miss.
pub open spec fn reward_from(
    power: int,
    angle: int,
    self_height: int,
    enemy_height: int,
    step: int,
    last: int,
) -> int
    decreases last - step,
{
    let p = arrow_point(power, angle, self_height, step);
    let arrow = box_at(p, ARROW_SIZE as int, ARROW_SIZE as int);
    if arrow.overlaps(head_box(enemy_height)) {
        HEAD_REWARD as int
    } else if arrow.overlaps(body_box(enemy_height)) {
        BODY_REWARD as int
    } else if arrow.overlaps(legs_box(enemy_height)) {
        LEGS_REWARD as int
    } else if out_of_field(p) || step >= last {
        miss_reward(p, head_box(enemy_height).center)
    } else {
        reward_from(power, angle, self_height, enemy_height, step + 1, last)
    }
}

/// What a shot of the given power and angle is worth, shot from
/// `self_height` at an opponent at `enemy_height`.
#[verifier::opaque]
pub open spec fn shot_reward(power: int, angle: int, self_height: int, enemy_height: int) -> int {
    reward_from(power, angle, self_height, enemy_height, 0, MAX_STEPS as int)
}

/// Whether a reward is one that only a miss gives.
pub open spec fn is_miss_reward(reward: int) -> bool {
    0 <= reward < LEGS_REWARD
}

/// A sum of two squares is at least each of them.
proof fn lemma_square_sum(dx: int, dy: int, m: int)
    by (nonlinear_arith)
    requires
        0 <= m,
        dx >= m || dx <= -m || dy >= m || dy <= -m,
    ensures
        dx * dx + dy * dy >= m * m,
        dx * dx + dy * dy >= 0,
{
}

/// A miss is worth between nothing and half a point.
pub proof fn lemma_miss_reward_bounds(dx: int, dy: int)
    ensures
        0 <= miss_reward_by(dx, dy) <= NEAR / 20,
{
    lemma_square_sum(dx, dy, 0);
    lemma_floor_sqrt_exists(dx * dx + dy * dy);
}

/// An arrow that does not overlap the head is at least half a unit away from
/// its middle, so the miss is worth less than a hit in the legs.
pub proof fn lemma_miss_below_legs(p: Point, enemy_height: int)
    requires
        !box_at(p, ARROW_SIZE as int, ARROW_SIZE as int).overlaps(head_box(enemy_height)),
    ensures
        is_miss_reward(miss_reward(p, head_box(enemy_height).center)),
        miss_reward(p, head_box(enemy_height).center) <= 475_000,
{
    let head = head_box(enemy_height).center;
    let dx = p.x - head.x;
    let dy = p.y - head.y;
    lemma_square_sum(dx, dy, 500_000);
    lemma_floor_sqrt_at_least(dx * dx + dy * dy, 500_000);
    lemma_miss_reward_bounds(dx, dy);
}

/// From whatever step on, a shot is worth a hit in the head, the body or the
/// legs, or else what a miss is worth: less than any hit.
pub proof fn lemma_reward_from_kinds(
    power: int,
    angle: int,
    self_height: int,
    enemy_height: int,
    step: int,
    last: int,
)
    ensures
        ({
            let r = reward_from(power, angle, self_height, enemy_height, step, last);
            r == HEAD_REWARD || r == BODY_REWARD || r == LEGS_REWARD || is_miss_reward(r)
        }),
    decreases last - step,
{
    let p = arrow_point(power, angle, self_height, step);
    let arrow = box_at(p, ARROW_SIZE as int, ARROW_SIZE as int);
    let hit = arrow.overlaps(head_box(enemy_height)) || arrow.overlaps(body_box(enemy_height))
        || arrow.overlaps(legs_box(enemy_height));
    if !hit {
        if out_of_field(p) || step >= last {
            lemma_miss_below_legs(p, enemy_height);
        } else {
            lemma_reward_from_kinds(power, angle, self_height, enemy_height, step + 1, last);
        }
    }
}

/// A shot is worth between nothing and a full point. The head is worth more
/// than the body, the body more than the legs, and the legs more than any
/// miss.
pub proof fn lemma_shot_reward_range(power: int, angle: int, self_height: int, enemy_height: int)
    ensures
        0 <= shot_reward(power, angle, self_height, enemy_height) <= ONE,
        ({
            let r = shot_reward(power, angle, self_height, enemy_height);
            r == HEAD_REWARD || r == BODY_REWARD || r == LEGS_REWARD || is_miss_reward(r)
        }),
        HEAD_REWARD > BODY_REWARD > LEGS_REWARD,
        forall|r: int| is_miss_reward(r) ==> r < LEGS_REWARD,
{
    reveal(shot_reward);
    lemma_reward_from_kinds(power, angle, self_height, enemy_height, 0, MAX_STEPS as int);
}

/// Every arrow has left the field by the four hundredth step: if it is not
/// already outside at the start, the fall that it has behind it after four
/// seconds is so deep that an arrow still in the field then was far above it
/// after two.
pub proof fn lemma_leaves_the_field(power: int, angle: int, self_height: int)
    ensures
        out_of_field(arrow_point(power, angle, self_height, 0)) || out_of_field(
            arrow_point(power, angle, self_height, DECIDED_BY / 2),
        ) || out_of_field(arrow_point(power, angle, self_height, DECIDED_BY as int)),
{
    let velocity = SPEED_PER_POWER * power;
    let sine = sin_spec(angle);
    let lift = velocity * sine;
    lemma_trajectory_starts_at_origin(velocity, angle);
    assert(velocity * 2_000_000 * sine == 2_000_000 * lift) by (nonlinear_arith)
        requires
            lift == velocity * sine,
    ;
    assert(velocity * 4_000_000 * sine == 4_000_000 * lift) by (nonlinear_arith)
        requires
            lift == velocity * sine,
    ;
    let half_way = 8_000_000 * lift - 72_000_000_000_000_000_000;
    let all_the_way = 16_000_000 * lift - 288_000_000_000_000_000_000;
    assert(flight_y(velocity, sine, 2_000_000) == half_way / 1_000_000_000_000);
    assert(flight_y(velocity, sine, 4_000_000) == all_the_way / 1_000_000_000_000);
    assert(all_the_way == 2 * half_way - 144_000_000_000_000_000_000);
}

/// No shot is ended by the bound on the number of steps: looking at more
/// than `DECIDED_BY` steps changes nothing.
pub proof fn lemma_bound_is_idle(
    power: int,
    angle: int,
    self_height: int,
    enemy_height: int,
    last: int,
)
    requires
        last >= DECIDED_BY,
    ensures
        reward_from(power, angle, self_height, enemy_height, 0, last) == reward_from(
            power,
            angle,
            self_height,
            enemy_height,
            0,
            DECIDED_BY as int,
        ),
{
    lemma_leaves_the_field(power, angle, self_height);
    let exit = if out_of_field(arrow_point(power, angle, self_height, 0)) {
        0
    } else if out_of_field(arrow_point(power, angle, self_height, DECIDED_BY / 2)) {
        DECIDED_BY / 2
    } else {
        DECIDED_BY as int
    };
    lemma_same_until_exit(power, angle, self_height, enemy_height, 0, exit, last);
}

/// From a step on that is not after one at which the arrow is outside the
/// field, the reward is the same whichever bound of `DECIDED_BY` or more is
/// set.
proof fn lemma_same_until_exit(
    power: int,
    angle: int,
    self_height: int,
    enemy_height: int,
    step: int,
    exit: int,
    last: int,
)
    requires
        step <= exit <= DECIDED_BY <= last,
        out_of_field(arrow_point(power, angle, self_height, exit)),
    ensures
        reward_from(power, angle, self_height, enemy_height, step, last) == reward_from(
            power,
            angle,
            self_height,
            enemy_height,
            step,
            DECIDED_BY as int,
        ),
    decreases exit - step,
{
    if step < exit {
        lemma_same_until_exit(power, angle, self_height, enemy_height, step + 1, exit, last);
    }
}

/// The world height that a normalised height stands for:
/// `14 * height - 8.5 + 1`.
pub fn world_height(height: i64) -> (y: i64)
    requires
        within(height as int, LIMIT as int),
    ensures
        y == real_height(height as int),
        within(y as int, 15_000_000_000_000),
{
    HEIGHT_SPAN * height + HEIGHT_BASE
}

/// The world height that any normalised height stands for, as a wide
/// integer.
fn wide_height(height: i64) -> (y: i128)
    ensures
        y == real_height(height as int),
        within(y as int, 200_000_000_000_000_000_000),
{
    proof {
        lemma_product_within(
            HEIGHT_SPAN as int,
            height as int,
            HEIGHT_SPAN as int,
            10_000_000_000_000_000_000,
        );
    }
    HEIGHT_SPAN as i128 * height as i128 + HEIGHT_BASE as i128
}

/// `REACH` along a direction of which `part` is the cosine or the sine.
fn reach_along(part: i64) -> (d: i64)
    requires
        within(part as int, ONE as int),
    ensures
        d == REACH * part / (ONE as int),
        within(d as int, REACH as int),
{
    proof {
        lemma_product_within(REACH as int, part as int, REACH as int, ONE as int);
        lemma_quotient_within(REACH * part, ONE as int, REACH as int);
    }
    let scaled: i128 = REACH as i128 * part as i128;
    floor_div(scaled, ONE as i128) as i64
}

/// What a miss is worth that ends `(dx, dy)` away from the middle of the
/// head.
fn miss_reward_wide(dx: i128, dy: i128) -> (reward: i64)
    requires
        within(dx as int, wide_limit()),
        within(dy as int, wide_limit()),
    ensures
        reward == miss_reward_by(dx as int, dy as int),
        0 <= reward <= NEAR / 20,
{
    proof {
        lemma_miss_reward_bounds(dx as int, dy as int);
    }
    if dx >= NEAR as i128 || dx <= -(NEAR as i128) || dy >= NEAR as i128 || dy <= -(NEAR as i128) {
        proof {
            lemma_square_sum(dx as int, dy as int, NEAR as int);
            lemma_floor_sqrt_at_least(dx * dx + dy * dy, NEAR as int);
        }
        return 0;
    }
    assert(dx * dx + dy * dy <= 2 * (NEAR * NEAR) && dx * dx >= 0 && dy * dy >= 0)
        by (nonlinear_arith)
        requires
            -NEAR < dx < NEAR,
            -NEAR < dy < NEAR,
    ;
    let squares: u64 = (dx * dx + dy * dy) as u64;
    let d = floor_sqrt(squares);
    if d >= NEAR as u64 {
        0
    } else {
        (NEAR - d as i64) / 20
    }
}

/// What a miss that ends at `p` is worth, with the middle of the head at
/// `head`.
pub fn miss_reward_at(p: Vec2, head: Vec2) -> (reward: i64)
    ensures
        reward == miss_reward(p@, head@),
        0 <= reward <= NEAR / 20,
{
    miss_reward_wide(p.x as i128 - head.x as i128, p.y as i128 - head.y as i128)
}

impl NeuralNetwork {
    /// What a shot of the given power and angle is worth, shot from
    /// `self_height` at an opponent at `enemy_height`: a full point for the
    /// head, eight tenths for the body, half a point for the legs, and for a miss
    /// less than that, the less the farther from the head the arrow ended.
    /// Every input is taken: where the numbers leave what an `i64` holds, the
    /// arrow is followed in wider integers.
    #[verifier::rlimit(40)]
    pub fn eval_shot(power: i64, angle: i64, self_height: i64, enemy_height: i64) -> (reward: i64)
        ensures
            reward == shot_reward(
                power as int,
                angle as int,
                self_height as int,
                enemy_height as int,
            ),
            0 <= reward <= ONE,
            reward == HEAD_REWARD || reward == BODY_REWARD || reward == LEGS_REWARD || is_miss_reward(
                reward as int,
            ),
    {
        proof {
            reveal(shot_reward);
            lemma_shot_reward_range(
                power as int,
                angle as int,
                self_height as int,
                enemy_height as int,
            );
        }
        let (cosine, sine) = cos_sin(angle);
        let shoot_x: i128 = (SHOOTER_X + MUZZLE_X + reach_along(cosine)) as i128;
        let shoot_y: i128 = wide_height(self_height) + MUZZLE_Y as i128 + reach_along(
            sine,
        ) as i128;

        let enemy_x: i128 = TARGET_X as i128;
        let enemy_height_real = wide_height(enemy_height);
        let legs_y: i128 = enemy_height_real + LEGS_RISE as i128;
        let body_y: i128 = enemy_height_real + BODY_RISE as i128;
        let head_y: i128 = enemy_height_real + HEAD_RISE as i128;

        let velocity: i128 = SPEED_PER_POWER as i128 * power as i128;
        let mut step: i64 = 0;
        loop
            invariant
                0 <= step <= MAX_STEPS,
                velocity == SPEED_PER_POWER * power,
                cosine == cos_spec(angle as int),
                sine == sin_spec(angle as int),
                within(cosine as int, ONE as int),
                within(sine as int, ONE as int),
                (Point { x: shoot_x as int, y: shoot_y as int }) == launch_point(
                    angle as int,
                    self_height as int,
                ),
                within(shoot_x as int, 20_000_000),
                within(shoot_y as int, 300_000_000_000_000_000_000),
                enemy_x == TARGET_X,
                head_y == real_height(enemy_height as int) + HEAD_RISE,
                body_y == real_height(enemy_height as int) + BODY_RISE,
                legs_y == real_height(enemy_height as int) + LEGS_RISE,
                within(head_y as int, 300_000_000_000_000_000_000),
                reward_from(
                    power as int,
                    angle as int,
                    self_height as int,
                    enemy_height as int,
                    step as int,
                    MAX_STEPS as int,
                ) == shot_reward(power as int, angle as int, self_height as int, enemy_height as int),
            decreases MAX_STEPS - step,
        {
            let travelled = flight_wide(velocity, cosine, sine, step * TIME_STEP);
            let x: i128 = shoot_x + travelled.0;
            let y: i128 = shoot_y + travelled.1;
            assert((Point { x: x as int, y: y as int }) == arrow_point(
                power as int,
                angle as int,
                self_height as int,
                step as int,
            ));
            let arrow_hits_head = wide_boxes_overlap(
                x,
                y,
                ARROW_SIZE,
                ARROW_SIZE,
                enemy_x,
                head_y,
                HEAD_WIDTH,
                HEAD_HEIGHT,
            );
            if arrow_hits_head {
                return HEAD_REWARD;
            }
            let arrow_hits_body = wide_boxes_overlap(
                x,
                y,
                ARROW_SIZE,
                ARROW_SIZE,
                enemy_x,
                body_y,
                BODY_WIDTH,
                BODY_HEIGHT,
            );
            if arrow_hits_body {
                return BODY_REWARD;
            }
            let arrow_hits_legs = wide_boxes_overlap(
                x,
                y,
                ARROW_SIZE,
                ARROW_SIZE,
                enemy_x,
                legs_y,
                LEGS_WIDTH,
                LEGS_HEIGHT,
            );
            if arrow_hits_legs {
                return LEGS_REWARD;
            }
            if x > FIELD_EDGE as i128 || x < -(FIELD_EDGE as i128) || y > FIELD_EDGE as i128 || y
                < -(FIELD_EDGE as i128) || step >= MAX_STEPS {
                return miss_reward_wide(x - enemy_x, y - head_y);
            }
            step = step + 1;
        }
    }
}

} // verus!
