//! Truncated power series in fixed point: the cosine and sine of an angle and
//! the decaying exponential, each evaluated by nested multiplication.
use crate::fixed::{clamp_spec, floor_mod, ONE};
use vstd::prelude::*;

verus! {

/// A quarter turn in millionths of a radian.
pub const QUARTER_TURN: i64 = 1_570_796;

/// A full turn: four quarter turns.
pub const FULL_TURN: i64 = 6_283_184;

/// The natural logarithm of two.
pub const LN_2: i64 = 693_147;

/// Halvings after which nothing is left of a value that is at most `ONE`.
pub const MAX_HALVINGS: i64 = 20;

/// One level of a nested series: `1 - (z * t) / d`.
pub open spec fn nest(z: int, t: int, d: int) -> int {
    ONE - (z * t / (ONE as int)) / d
}

/// The square of an angle, in millionths.
pub open spec fn squared(r: int) -> int {
    r * r / (ONE as int)
}

/// The sine of an angle `r` of the first quarter turn: the series up to the
/// eleventh power, capped at `ONE`.
pub open spec fn sin_quarter(r: int) -> int {
    let z = squared(r);
    let s = nest(z, nest(z, nest(z, nest(z, nest(z, ONE as int, 110), 72), 42), 20), 6);
    let v = r * s / (ONE as int);
    if v > ONE {
        ONE as int
    } else {
        v
    }
}

/// The cosine of an angle `r` of the first quarter turn: the series up to the
/// twelfth power, kept within `0..=ONE`.
pub open spec fn cos_quarter(r: int) -> int {
    let z = squared(r);
    let c = nest(
        z,
        nest(z, nest(z, nest(z, nest(z, nest(z, ONE as int, 132), 90), 56), 30), 12),
        2,
    );
    if c < 0 {
        0
    } else {
        c
    }
}

/// The sine of any angle, by the quarter turn that it falls in.
pub open spec fn sin_spec(angle: int) -> int {
    let m = angle % (FULL_TURN as int);
    let q = m / (QUARTER_TURN as int);
    let r = m % (QUARTER_TURN as int);
    if q == 0 {
        sin_quarter(r)
    } else if q == 1 {
        cos_quarter(r)
    } else if q == 2 {
        -sin_quarter(r)
    } else {
        -cos_quarter(r)
    }
}

/// The cosine of any angle, by the quarter turn that it falls in.
pub open spec fn cos_spec(angle: int) -> int {
    let m = angle % (FULL_TURN as int);
    let q = m / (QUARTER_TURN as int);
    let r = m % (QUARTER_TURN as int);
    if q == 0 {
        cos_quarter(r)
    } else if q == 1 {
        -sin_quarter(r)
    } else if q == 2 {
        -cos_quarter(r)
    } else {
        sin_quarter(r)
    }
}

/// `e` to the power `-r` for `0 <= r < LN_2`: the series up to the eighth
/// power.
pub open spec fn decay_unit(r: int) -> int {
    nest(
        r,
        nest(
            r,
            nest(r, nest(r, nest(r, nest(r, nest(r, nest(r, ONE as int, 8), 7), 6), 5), 4), 3),
            2,
        ),
        1,
    )
}

/// `e` halved `k` times, rounding down each time.
pub open spec fn halved(e: int, k: int) -> int
    decreases k,
{
    if k <= 0 {
        e
    } else {
        halved(e / 2, k - 1)
    }
}

/// `e` to the power `-x` for `x >= 0`: the whole multiples of `LN_2` in `x`
/// halve what the series gives for the rest.
pub open spec fn decay_spec(x: int) -> int {
    let k = x / (LN_2 as int);
    if k >= MAX_HALVINGS {
        0
    } else {
        halved(decay_unit(x % (LN_2 as int)), k)
    }
}

/// A product of a non-negative `z` with a `t` of `0..=ONE`, scaled back,
/// lies in `0..=z`.
proof fn lemma_scaled_product_bounds(z: int, t: int)
    by (nonlinear_arith)
    requires
        0 <= z,
        0 <= t <= ONE,
    ensures
        0 <= z * t / (ONE as int) <= z,
        z * t <= z * ONE,
{
}

/// One level of a nested series stays within `ONE - z / d ..= ONE`.
pub proof fn lemma_nest_bounds(z: int, t: int, d: int)
    requires
        0 <= z,
        0 <= t <= ONE,
        1 <= d,
    ensures
        ONE - z / d <= nest(z, t, d) <= ONE,
{
    lemma_scaled_product_bounds(z, t);
    let p = z * t / (ONE as int);
    vstd::arithmetic::div_mod::lemma_div_is_ordered(p, z, d);
    vstd::arithmetic::div_mod::lemma_div_pos_is_pos(p, d);
}

/// One level of a nested series.
fn nest_exec(z: i64, t: i64, d: i64) -> (r: i64)
    requires
        0 <= z <= 4 * ONE,
        0 <= t <= ONE,
        1 <= d,
    ensures
        r == nest(z as int, t as int, d as int),
        ONE - z / d <= r <= ONE,
{
    proof {
        lemma_nest_bounds(z as int, t as int, d as int);
        lemma_scaled_product_bounds(z as int, t as int);
    }
    let p: i64 = (z as i128 * t as i128 / ONE as i128) as i64;
    ONE - p / d
}

/// The square of an angle of the first quarter turn stays under `3 * ONE`.
proof fn lemma_squared_bounds(r: int)
    by (nonlinear_arith)
    requires
        0 <= r < QUARTER_TURN,
    ensures
        0 <= r * r <= 1_570_796 * 1_570_796,
        0 <= squared(r) <= 3 * ONE,
{
}

/// The square of an angle of the first quarter turn.
fn squared_exec(r: i64) -> (z: i64)
    requires
        0 <= r < QUARTER_TURN,
    ensures
        z == squared(r as int),
        0 <= z <= 3 * ONE,
{
    proof {
        lemma_squared_bounds(r as int);
    }
    (r as i128 * r as i128 / ONE as i128) as i64
}

/// The sine of an angle of the first quarter turn.
fn sin_quarter_exec(r: i64) -> (v: i64)
    requires
        0 <= r < QUARTER_TURN,
    ensures
        v == sin_quarter(r as int),
        0 <= v <= ONE,
{
    let z = squared_exec(r);
    let s5 = nest_exec(z, ONE, 110);
    let s4 = nest_exec(z, s5, 72);
    let s3 = nest_exec(z, s4, 42);
    let s2 = nest_exec(z, s3, 20);
    let s1 = nest_exec(z, s2, 6);
    proof {
        lemma_scaled_product_bounds(r as int, s1 as int);
    }
    let v: i64 = (r as i128 * s1 as i128 / ONE as i128) as i64;
    if v > ONE {
        ONE
    } else {
        v
    }
}

/// The cosine of an angle of the first quarter turn.
fn cos_quarter_exec(r: i64) -> (v: i64)
    requires
        0 <= r < QUARTER_TURN,
    ensures
        v == cos_quarter(r as int),
        0 <= v <= ONE,
{
    let z = squared_exec(r);
    let c6 = nest_exec(z, ONE, 132);
    let c5 = nest_exec(z, c6, 90);
    let c4 = nest_exec(z, c5, 56);
    let c3 = nest_exec(z, c4, 30);
    let c2 = nest_exec(z, c3, 12);
    let c1 = nest_exec(z, c2, 2);
    if c1 < 0 {
        0
    } else {
        c1
    }
}

/// The cosine and the sine of `angle`, an angle in millionths of a radian.
pub fn cos_sin(angle: i64) -> (cs: (i64, i64))
    ensures
        cs.0 == cos_spec(angle as int),
        cs.1 == sin_spec(angle as int),
        -ONE <= cs.0 <= ONE,
        -ONE <= cs.1 <= ONE,
{
    let m = floor_mod(angle, FULL_TURN);
    let q: i64 = m / QUARTER_TURN;
    let r: i64 = m % QUARTER_TURN;
    let s = sin_quarter_exec(r);
    let c = cos_quarter_exec(r);
    if q == 0 {
        (c, s)
    } else if q == 1 {
        (-s, c)
    } else if q == 2 {
        (-c, -s)
    } else {
        (s, -c)
    }
}

/// The cosine of `angle`.
pub fn cos(angle: i64) -> (c: i64)
    ensures
        c == cos_spec(angle as int),
        -ONE <= c <= ONE,
{
    cos_sin(angle).0
}

/// The sine of `angle`.
pub fn sin(angle: i64) -> (s: i64)
    ensures
        s == sin_spec(angle as int),
        -ONE <= s <= ONE,
{
    cos_sin(angle).1
}

/// At angle zero the cosine is exactly one and the sine exactly zero.
pub proof fn lemma_cos_sin_at_zero()
    ensures
        cos_spec(0) == ONE,
        sin_spec(0) == 0,
{
}

/// A full turn more changes neither the cosine nor the sine.
pub proof fn lemma_full_turn(angle: int)
    ensures
        cos_spec(angle + FULL_TURN) == cos_spec(angle),
        sin_spec(angle + FULL_TURN) == sin_spec(angle),
{
    assert((angle + FULL_TURN) % (FULL_TURN as int) == angle % (FULL_TURN as int));
}

/// A quarter turn more turns the cosine into the sine and the sine into the
/// cosine of the other sign.
pub proof fn lemma_quarter_turn(angle: int)
    ensures
        sin_spec(angle + QUARTER_TURN) == cos_spec(angle),
        cos_spec(angle + QUARTER_TURN) == -sin_spec(angle),
{
    let m = angle % (FULL_TURN as int);
    let n = (angle + QUARTER_TURN) % (FULL_TURN as int);
    assert(n == if m + QUARTER_TURN < FULL_TURN {
        m + QUARTER_TURN
    } else {
        m + QUARTER_TURN - FULL_TURN
    });
    assert(n % (QUARTER_TURN as int) == m % (QUARTER_TURN as int));
    assert(n / (QUARTER_TURN as int) == (m / (QUARTER_TURN as int) + 1) % 4);
}

/// Neither the cosine nor the sine of any angle leaves `-ONE..=ONE`.
pub proof fn lemma_cos_sin_bounds(angle: int)
    ensures
        -ONE <= cos_spec(angle) <= ONE,
        -ONE <= sin_spec(angle) <= ONE,
{
    let m = angle % (FULL_TURN as int);
    let r = m % (QUARTER_TURN as int);
    lemma_quarter_bounds(r);
}

/// Within the first quarter turn both series stay in `0..=ONE`.
pub proof fn lemma_quarter_bounds(r: int)
    requires
        0 <= r < QUARTER_TURN,
    ensures
        0 <= sin_quarter(r) <= ONE,
        0 <= cos_quarter(r) <= ONE,
{
    lemma_squared_bounds(r);
    let z = squared(r);
    let s5 = nest(z, ONE as int, 110);
    lemma_nest_bounds(z, ONE as int, 110);
    let s4 = nest(z, s5, 72);
    lemma_nest_bounds(z, s5, 72);
    let s3 = nest(z, s4, 42);
    lemma_nest_bounds(z, s4, 42);
    let s2 = nest(z, s3, 20);
    lemma_nest_bounds(z, s3, 20);
    let s1 = nest(z, s2, 6);
    lemma_nest_bounds(z, s2, 6);
    lemma_scaled_product_bounds(r, s1);
    let c6 = nest(z, ONE as int, 132);
    lemma_nest_bounds(z, ONE as int, 132);
    let c5 = nest(z, c6, 90);
    lemma_nest_bounds(z, c6, 90);
    let c4 = nest(z, c5, 56);
    lemma_nest_bounds(z, c5, 56);
    let c3 = nest(z, c4, 30);
    lemma_nest_bounds(z, c4, 30);
    let c2 = nest(z, c3, 12);
    lemma_nest_bounds(z, c3, 12);
    lemma_nest_bounds(z, c2, 2);
}

/// The logistic curve `1 / (1 + e^-net)`, mirrored about zero so that the two
/// halves add up to `ONE`.
pub open spec fn logistic_spec(net: int) -> int {
    if net >= 0 {
        ONE * ONE / (ONE + decay_spec(net))
    } else {
        ONE - ONE * ONE / (ONE + decay_spec(-net))
    }
}

/// The logistic curve kept strictly between 0 and `ONE`: it stops one
/// millionth short of either end.
pub open spec fn squash_spec(net: int) -> int {
    clamp_spec(logistic_spec(net), 1, ONE - 1)
}

/// The input from which the logistic curve has reached its end.
pub const SATURATION: i64 = 14_000_000;

/// Halving never leaves `0..=e`.
pub proof fn lemma_halved_bounds(e: int, k: int)
    requires
        0 <= e,
    ensures
        0 <= halved(e, k) <= e,
    decreases k,
{
    if k > 0 {
        lemma_halved_bounds(e / 2, k - 1);
    }
}

/// The series for `e^-r` stays within `0..=ONE`, and is `ONE` at zero.
pub proof fn lemma_decay_unit_bounds(r: int)
    requires
        0 <= r < LN_2,
    ensures
        0 < decay_unit(r) <= ONE,
        r == 0 ==> decay_unit(r) == ONE,
{
    let t8 = nest(r, ONE as int, 8);
    lemma_nest_bounds(r, ONE as int, 8);
    let t7 = nest(r, t8, 7);
    lemma_nest_bounds(r, t8, 7);
    let t6 = nest(r, t7, 6);
    lemma_nest_bounds(r, t7, 6);
    let t5 = nest(r, t6, 5);
    lemma_nest_bounds(r, t6, 5);
    let t4 = nest(r, t5, 4);
    lemma_nest_bounds(r, t5, 4);
    let t3 = nest(r, t4, 3);
    lemma_nest_bounds(r, t4, 3);
    let t2 = nest(r, t3, 2);
    lemma_nest_bounds(r, t3, 2);
    lemma_nest_bounds(r, t2, 1);
}

/// `e^-x` stays within `0..=ONE`, is `ONE` at zero and is gone from
/// `SATURATION` on.
pub proof fn lemma_decay_bounds(x: int)
    requires
        0 <= x,
    ensures
        0 <= decay_spec(x) <= ONE,
        x == 0 ==> decay_spec(x) == ONE,
        x >= SATURATION ==> decay_spec(x) == 0,
{
    let k = x / (LN_2 as int);
    let r = x % (LN_2 as int);
    vstd::arithmetic::div_mod::lemma_div_pos_is_pos(x, LN_2 as int);
    if x >= SATURATION {
        vstd::arithmetic::div_mod::lemma_div_is_ordered(SATURATION as int, x, LN_2 as int);
    }
    if k < MAX_HALVINGS {
        lemma_decay_unit_bounds(r);
        lemma_halved_bounds(decay_unit(r), k);
    }
}

/// With `0 <= e <= ONE`, the quotient `ONE * ONE / (ONE + e)` lies in the
/// upper half of `0..=ONE`.
proof fn lemma_upper_half(e: int)
    by (nonlinear_arith)
    requires
        0 <= e <= ONE,
    ensures
        ONE / 2 <= ONE * ONE / (ONE + e) <= ONE,
        e == 0 ==> ONE * ONE / (ONE + e) == ONE,
        e == ONE ==> ONE * ONE / (ONE + e) == ONE / 2,
{
}

/// The logistic curve never leaves `0..=ONE`.
pub proof fn lemma_logistic_bounds(net: int)
    ensures
        0 <= logistic_spec(net) <= ONE,
        net >= 0 ==> logistic_spec(net) >= ONE / 2,
        net >= SATURATION ==> logistic_spec(net) == ONE,
        net <= -SATURATION ==> logistic_spec(net) == 0,
{
    if net >= 0 {
        lemma_decay_bounds(net);
        lemma_upper_half(decay_spec(net));
    } else {
        lemma_decay_bounds(-net);
        lemma_upper_half(decay_spec(-net));
    }
}

/// Whatever goes in, what comes out lies strictly between 0 and `ONE`.
pub proof fn lemma_squash_range(net: int)
    ensures
        0 < squash_spec(net) < ONE,
{
}

/// An input of zero gives exactly one half.
pub proof fn lemma_squash_midpoint()
    ensures
        squash_spec(0) == ONE / 2,
{
    lemma_decay_bounds(0);
    lemma_upper_half(ONE as int);
}

/// The curve is point-symmetric about its midpoint: negating the input
/// mirrors the output in `ONE`.
pub proof fn lemma_squash_mirror(net: int)
    ensures
        squash_spec(-net) == ONE - squash_spec(net),
{
    lemma_logistic_bounds(net);
    lemma_logistic_bounds(-net);
    if net == 0 {
        lemma_squash_midpoint();
    }
}

/// `e^-r` for `0 <= r < LN_2`.
fn decay_unit_exec(r: i64) -> (e: i64)
    requires
        0 <= r < LN_2,
    ensures
        e == decay_unit(r as int),
        0 < e <= ONE,
{
    proof {
        lemma_decay_unit_bounds(r as int);
    }
    let t8 = nest_exec(r, ONE, 8);
    let t7 = nest_exec(r, t8, 7);
    let t6 = nest_exec(r, t7, 6);
    let t5 = nest_exec(r, t6, 5);
    let t4 = nest_exec(r, t5, 4);
    let t3 = nest_exec(r, t4, 3);
    let t2 = nest_exec(r, t3, 2);
    nest_exec(r, t2, 1)
}

/// `e^-x` for `x >= 0`.
pub fn decay(x: i64) -> (e: i64)
    requires
        0 <= x,
    ensures
        e == decay_spec(x as int),
        0 <= e <= ONE,
{
    proof {
        lemma_decay_bounds(x as int);
    }
    let k: i64 = x / LN_2;
    if k >= MAX_HALVINGS {
        return 0;
    }
    let r: i64 = x % LN_2;
    let mut e: i64 = decay_unit_exec(r);
    let mut done: i64 = 0;
    while done < k
        invariant
            0 <= done <= k,
            0 <= e <= ONE,
            halved(e as int, k - done) == halved(decay_unit(r as int), k as int),
        decreases k - done,
    {
        e = e / 2;
        done = done + 1;
    }
    e
}

/// `ONE * ONE / (ONE + e)`: the logistic curve where `e` is `e^-net`.
fn upper_half(e: i64) -> (v: i64)
    requires
        0 <= e <= ONE,
    ensures
        v == ONE * ONE / (ONE + e),
        ONE / 2 <= v <= ONE,
{
    proof {
        lemma_upper_half(e as int);
    }
    let n: i128 = ONE as i128 * ONE as i128;
    let d: i128 = ONE as i128 + e as i128;
    (n / d) as i64
}

/// The logistic curve of `net`, kept strictly inside `0..ONE`.
pub fn squash(net: i128) -> (out: i64)
    ensures
        out == squash_spec(net as int),
        0 < out < ONE,
{
    proof {
        lemma_logistic_bounds(net as int);
    }
    if net >= SATURATION as i128 {
        ONE - 1
    } else if net <= -(SATURATION as i128) {
        1
    } else if net >= 0 {
        let e = decay(net as i64);
        let v = upper_half(e);
        if v > ONE - 1 {
            ONE - 1
        } else {
            v
        }
    } else {
        let x: i64 = (-net) as i64;
        let e = decay(x);
        let v: i64 = ONE - upper_half(e);
        if v < 1 {
            1
        } else {
            v
        }
    }
}

} // verus!
