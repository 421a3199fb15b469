//! Fixed-point arithmetic on integers that count millionths.
use vstd::arithmetic::div_mod::lemma_fundamental_div_mod_converse;
use vstd::prelude::*;

verus! {

/// The integer that stands for 1.0.
pub const ONE: i64 = 1_000_000;

/// The largest magnitude that a stored or supplied quantity may have: a
/// million units.
pub const LIMIT: i64 = 1_000_000_000_000;

/// Whether `x` lies within `bound` of zero.
pub open spec fn within(x: int, bound: int) -> bool {
    -bound <= x <= bound
}

/// The largest magnitude that a wide intermediate value may have: far more
/// than any product of `i64` quantities that is scaled back comes to.
pub open spec fn wide_limit() -> int {
    1_000_000_000_000_000_000_000_000_000_000
}

/// Whether `x` lies within `LIMIT` of zero.
pub open spec fn within_limit(x: int) -> bool {
    within(x, LIMIT as int)
}

/// `x` brought into `lo..=hi`.
pub open spec fn clamp_spec(x: int, lo: int, hi: int) -> int {
    if x < lo {
        lo
    } else if x > hi {
        hi
    } else {
        x
    }
}

/// Whether `r` is the integer part of the square root of `n`.
pub open spec fn is_floor_sqrt(n: int, r: int) -> bool {
    0 <= r && r * r <= n < (r + 1) * (r + 1)
}

/// The integer part of the square root of `n`.
pub open spec fn floor_sqrt_spec(n: int) -> int {
    choose|r: int| is_floor_sqrt(n, r)
}

/// Squaring is strictly increasing on the non-negative integers.
proof fn lemma_square_increasing(a: int, b: int)
    by (nonlinear_arith)
    requires
        0 <= a < b,
    ensures
        a * a < b * b,
        (a + 1) * (a + 1) <= b * b,
{
}

/// A number has at most one integer square root, so whichever one is found
/// is the one that `floor_sqrt_spec` names.
pub proof fn lemma_floor_sqrt_unique(n: int, r: int)
    requires
        is_floor_sqrt(n, r),
    ensures
        floor_sqrt_spec(n) == r,
{
    let s = floor_sqrt_spec(n);
    if s < r {
        lemma_square_increasing(s, r);
    }
    if r < s {
        lemma_square_increasing(r, s);
    }
}

/// Every non-negative number has an integer square root.
pub proof fn lemma_floor_sqrt_exists(n: int)
    requires
        0 <= n,
    ensures
        is_floor_sqrt(n, floor_sqrt_spec(n)),
    decreases n,
{
    if n == 0 {
        assert(is_floor_sqrt(0, 0));
    } else {
        lemma_floor_sqrt_exists(n - 1);
        let r = floor_sqrt_spec(n - 1);
        lemma_square_increasing(r + 1, r + 2);
        if (r + 1) * (r + 1) <= n {
            assert(is_floor_sqrt(n, r + 1));
        } else {
            assert(is_floor_sqrt(n, r));
        }
    }
}

/// The integer square root of a number that is at least `m * m` is at least
/// `m`.
pub proof fn lemma_floor_sqrt_at_least(n: int, m: int)
    requires
        0 <= m,
        m * m <= n,
    ensures
        floor_sqrt_spec(n) >= m,
{
    assert(0 <= m * m) by (nonlinear_arith)
        requires
            0 <= m,
    ;
    lemma_floor_sqrt_exists(n);
    let r = floor_sqrt_spec(n);
    if r + 1 < m {
        lemma_square_increasing(r + 1, m);
    }
}

/// The magnitude of a product is at most the product of the bounds.
pub proof fn lemma_product_within(a: int, b: int, bound_a: int, bound_b: int)
    by (nonlinear_arith)
    requires
        within(a, bound_a),
        within(b, bound_b),
    ensures
        within(a * b, bound_a * bound_b),
{
}

/// A quotient by a positive `d` is within `bound` when the dividend is within
/// `bound * d`.
pub proof fn lemma_quotient_within(n: int, d: int, bound: int)
    by (nonlinear_arith)
    requires
        0 < d,
        within(n, bound * d),
    ensures
        within(n / d, bound),
{
}

/// The quotient of `a` by a positive `b`, rounded towards minus infinity.
pub fn floor_div(a: i128, b: i128) -> (q: i128)
    requires
        b > 0,
    ensures
        q == a as int / b as int,
{
    if a >= 0 {
        a / b
    } else {
        let m: i128 = -(a + 1);
        let k: i128 = m / b;
        let r: i128 = m % b;
        proof {
            assert(m == b * k + r) by (nonlinear_arith)
                requires
                    k == m as int / b as int,
                    r == m as int % b as int,
                    b > 0,
            ;
            assert(a == (-k - 1) * b + (b - 1 - r)) by (nonlinear_arith)
                requires
                    m == b * k + r,
                    m == -(a + 1),
            ;
            lemma_fundamental_div_mod_converse(a as int, b as int, -k - 1, b - 1 - r);
        }
        -k - 1
    }
}

/// The remainder of `a` by a positive `b`, never negative.
pub fn floor_mod(a: i64, b: i64) -> (r: i64)
    requires
        b > 0,
    ensures
        r == a as int % b as int,
        0 <= r < b,
{
    if a >= 0 {
        a % b
    } else {
        let m: i64 = -(a + 1);
        let k: i64 = m / b;
        let s: i64 = m % b;
        proof {
            assert(m == b * k + s) by (nonlinear_arith)
                requires
                    k == m as int / b as int,
                    s == m as int % b as int,
                    b > 0,
            ;
            assert(a == (-k - 1) * b + (b - 1 - s)) by (nonlinear_arith)
                requires
                    m == b * k + s,
                    m == -(a + 1),
            ;
            lemma_fundamental_div_mod_converse(a as int, b as int, -k - 1, b - 1 - s);
        }
        b - 1 - s
    }
}

/// `x` brought into `lo..=hi`.
pub fn clamp(x: i128, lo: i64, hi: i64) -> (r: i64)
    requires
        lo <= hi,
    ensures
        r == clamp_spec(x as int, lo as int, hi as int),
        lo <= r <= hi,
{
    if x < lo as i128 {
        lo
    } else if x > hi as i128 {
        hi
    } else {
        x as i64
    }
}

/// The integer part of the square root of `n`, found by bisection.
pub fn floor_sqrt(n: u64) -> (r: u64)
    ensures
        r == floor_sqrt_spec(n as int),
        is_floor_sqrt(n as int, r as int),
{
    let mut lo: u64 = 0;
    let mut hi: u64 = 4_294_967_296;
    assert(hi * hi > n) by (nonlinear_arith)
        requires
            hi == 4_294_967_296,
            n <= u64::MAX,
    ;
    while hi - lo > 1
        invariant
            lo < hi <= 4_294_967_296,
            lo * lo <= n,
            n < hi * hi,
        decreases hi - lo,
    {
        let mid: u64 = lo + (hi - lo) / 2;
        assert(mid * mid <= 4_294_967_296 * 4_294_967_296) by (nonlinear_arith)
            requires
                0 <= mid <= 4_294_967_296,
        ;
        let sq: u128 = mid as u128 * mid as u128;
        if sq <= n as u128 {
            lo = mid;
        } else {
            hi = mid;
        }
    }
    proof {
        lemma_floor_sqrt_unique(n as int, lo as int);
    }
    lo
}

} // verus!
