//! Pi and the logarithm of ten are at least one unit at every scale: read from their
//! decimals up to the precomputed scale, and computed beyond it, where the series keep
//! them well away from zero.
use vstd::arithmetic::mul::*;
use vstd::arithmetic::power::*;
use vstd::prelude::*;

use crate::fixed::{div_rounded, fixed_product, fixed_quotient, rounded_sqrt};
use crate::laws::lemma_quotient_error;
use crate::rounding::{floor_root, lemma_floor_root, lemma_ten_pow_pos, ten_pow, RoundingMode};
use crate::series::{lemma_read_constants, series_terms, PRECOMPUTED_CONSTANT_SCALE};
use crate::signed::{sign_of, spec_sign_product, Sign};
use crate::steps::{
    arctan_steps,
    arctan_value,
    lemma_isqrt_exists,
    lemma_sqrt_step,
    ln_core_value,
    ln_steps,
    ln_ten_value,
    pi_value,
    reduction_threshold,
    sqrt_reduction,
    sqrt_reduction_continues,
};

verus! {

/// A quotient rounded to nearest lies within half the divisor of the exact one.
proof fn lemma_nearest(n: int, d: int)
    requires
        n >= 0,
        d >= 1,
    ensures
        div_rounded(n, d, RoundingMode::HalfEven) >= 0,
        2 * (div_rounded(n, d, RoundingMode::HalfEven) * d) <= 2 * n + d,
        2 * n <= 2 * (div_rounded(n, d, RoundingMode::HalfEven) * d) + d,
{
    lemma_quotient_error(n, d, 0, RoundingMode::HalfEven);
    lemma_pow0(10);
    assert(ten_pow(0) == 1);
    lemma_mul_basics(n);
    assert(n * ten_pow(0) == n);
    let q = div_rounded(n, d, RoundingMode::HalfEven);
    assert(fixed_quotient(n, d, 0, RoundingMode::HalfEven) == q);
    let e = q * d - n;
    assert(2 * e <= d && -d <= 2 * e);
    assert(q >= 0) by (nonlinear_arith)
        requires
            e == q * d - n,
            -d <= 2 * e,
            n >= 0,
            d >= 1,
    ;
}

/// A product of nonnegative mantissas rounded to nearest lies within half a unit of the
/// exact product.
proof fn lemma_product_nearest(a: int, b: int, s: nat)
    requires
        a >= 0,
        b >= 0,
    ensures
        fixed_product(a, b, s) >= 0,
        2 * (fixed_product(a, b, s) * ten_pow(s)) <= 2 * (a * b) + ten_pow(s),
        2 * (a * b) <= 2 * (fixed_product(a, b, s) * ten_pow(s)) + ten_pow(s),
{
    let t = ten_pow(s) as int;
    lemma_ten_pow_pos(s);
    let ab = a * b;
    assert(ab >= 0) by (nonlinear_arith)
        requires
            a >= 0,
            b >= 0,
            ab == a * b,
    ;
    let p = fixed_product(a, b, s);
    if ab == 0 {
        assert(p == 0);
    } else if s == 0 {
        lemma_pow0(10);
        assert(p == ab);
    } else {
        assert(s + s != s);
        assert((s + s - s) as nat == s);
        assert(sign_of(ab) == Sign::Positive);
        assert(sign_of(t) == Sign::Positive);
        assert(spec_sign_product(Sign::Positive, Sign::Positive) == Sign::Positive);
        assert(p == div_rounded(ab, t, RoundingMode::HalfEven));
        lemma_nearest(ab, t);
    }
}

/// One square root of the logarithm's reduction, taken from beyond the threshold, stays
/// at least three units above one.
proof fn lemma_sqrt_step_above(m: int, t: int, thr: int)
    requires
        t >= 9,
        thr >= 6,
        m > t + thr,
    ensures
        rounded_sqrt((m * t) as nat, RoundingMode::HalfEven) >= t + 3,
{
    assert(m * t >= (t + 3) * (t + 3)) by (nonlinear_arith)
        requires
            m >= t + 7,
            t >= 9,
    ;
    let n = (m * t) as nat;
    let r = lemma_isqrt_exists(n);
    lemma_square_is_pow2(r as int);
    lemma_square_is_pow2((r + 1) as int);
    lemma_floor_root(n, 2, r);
    assert(floor_root(n, 2) == r);
    assert(r >= t + 3) by (nonlinear_arith)
        requires
            n < (r + 1) * (r + 1),
            n >= (t + 3) * (t + 3),
            t >= 9,
    ;
}

/// The reduction of a value at least three units above one ends at least three units
/// above one, and within the threshold of it.
proof fn lemma_reduction_above(m: int, t: int, thr: int, count: nat)
    requires
        t >= 9,
        thr >= 6,
        m >= t + 3,
    ensures
        t + 3 <= sqrt_reduction(m, t, thr, count).0 <= t + thr,
    decreases m - t,
{
    if sqrt_reduction_continues(m, t, thr) {
        lemma_sqrt_step(m as nat, t as nat);
        lemma_sqrt_step_above(m, t, thr);
        let next = rounded_sqrt((m * t) as nat, RoundingMode::HalfEven) as int;
        assert(next < m);
        lemma_reduction_above(next, t, thr, count + 1);
    }
}

/// The logarithm's series of a nonnegative value does not fall below its partial sum.
proof fn lemma_ln_steps_above(power: int, sum: int, z2: int, n: nat, terms: nat, s: nat)
    requires
        power >= 0,
        z2 >= 0,
    ensures
        ln_steps(power, sum, z2, n, terms, s) >= sum,
    decreases terms + 1 - n,
{
    if n <= terms {
        let next_power = fixed_product(power, z2, s);
        lemma_product_nearest(power, z2, s);
        lemma_nearest(next_power, (2 * n + 1) as int);
        let addend = div_rounded(next_power, (2 * n + 1) as int, RoundingMode::HalfEven);
        if addend != 0 && addend > 1 {
            lemma_ln_steps_above(next_power, sum + addend, z2, n + 1, terms, s);
        }
    }
}

/// Ten to a power of at least two is at least a hundred.
proof fn lemma_ten_pow_hundred(s: nat)
    requires
        s >= 2,
    ensures
        ten_pow(s) >= 100,
{
    lemma_pow_increases(10, 2, s);
    reveal_with_fuel(pow, 3);
    assert(pow(10, 2) == 100);
    lemma_ten_pow_pos(s);
}

/// The logarithm of a value of at least two is at least one unit.
proof fn lemma_ln_core_positive(m: int, s: nat)
    requires
        s >= 2,
        m >= 2 * ten_pow(s),
    ensures
        ln_core_value(m, s) >= 1,
{
    let t = ten_pow(s) as int;
    lemma_ten_pow_hundred(s);
    let thr = reduction_threshold(s);
    lemma_nearest(t, 8);
    assert(12 <= thr <= t);
    lemma_reduction_above(m, t, thr, 0);
    let (r, k) = sqrt_reduction(m, t, thr, 0);
    assert(t + 3 <= r <= t + thr);
    let num = (r - t) * t;
    assert(num >= 3 * t) by (nonlinear_arith)
        requires
            num == (r - t) * t,
            r - t >= 3,
            t >= 1,
    ;
    assert((r - t) * ten_pow(s) == num);
    lemma_nearest(num, r + t);
    let z = fixed_quotient(r - t, r + t, s, RoundingMode::HalfEven);
    assert(z == div_rounded(num, r + t, RoundingMode::HalfEven));
    assert(z >= 1) by (nonlinear_arith)
        requires
            2 * num <= 2 * (z * (r + t)) + (r + t),
            num >= 3 * t,
            r + t <= 3 * t,
            z >= 0,
            t >= 1,
    ;
    lemma_product_nearest(z, z, s);
    let z2 = fixed_product(z, z, s);
    lemma_ln_steps_above(z, z, z2, 1, series_terms(s), s);
    let sum = ln_steps(z, z, z2, 1, series_terms(s), s);
    lemma_pow_positive(2, k);
    assert(sum * 2 * pow(2, k) >= 1) by (nonlinear_arith)
        requires
            sum >= 1,
            pow(2, k) >= 1,
    ;
}

/// The logarithm of ten is at least one unit at every scale.
pub proof fn lemma_ln_ten_positive(s: u32)
    ensures
        ln_ten_value(s) >= 1,
{
    if s <= PRECOMPUTED_CONSTANT_SCALE {
        lemma_read_constants(s);
    } else {
        lemma_ten_pow_pos(s as nat);
        lemma_ln_core_positive((10 * ten_pow(s as nat)) as int, s as nat);
    }
}

/// The arctangent's alternating series, from a nonnegative power and with `z2` at most a
/// quarter, stays within twice the next power of its partial sum.
proof fn lemma_arctan_steps_close(power: int, sum: int, z2: int, n: nat, terms: nat, s: nat)
    requires
        power >= 0,
        z2 >= 0,
        4 * z2 <= ten_pow(s),
        n >= 1,
    ensures
        sum - 2 * fixed_product(power, z2, s) <= arctan_steps(power, sum, z2, n, terms, s),
        arctan_steps(power, sum, z2, n, terms, s) <= sum + 2 * fixed_product(power, z2, s),
    decreases terms + 1 - n,
{
    let t = ten_pow(s) as int;
    lemma_ten_pow_pos(s);
    let p1 = fixed_product(power, z2, s);
    lemma_product_nearest(power, z2, s);
    if n <= terms {
        let d = (2 * n + 1) as int;
        lemma_nearest(p1, d);
        let addend = div_rounded(p1, d, RoundingMode::HalfEven);
        assert(addend <= p1) by (nonlinear_arith)
            requires
                2 * (addend * d) <= 2 * p1 + d,
                d >= 3,
                p1 >= 0,
                addend >= 0,
        ;
        if addend != 0 && addend > 1 {
            let next_sum = if n % 2 == 1 {
                sum - addend
            } else {
                sum + addend
            };
            lemma_arctan_steps_close(p1, next_sum, z2, n + 1, terms, s);
            let p2 = fixed_product(p1, z2, s);
            lemma_product_nearest(p1, z2, s);
            assert(2 * p2 <= p1) by (nonlinear_arith)
                requires
                    2 * (p2 * t) <= 2 * (p1 * z2) + t,
                    4 * z2 <= t,
                    p1 >= 2,
                    t >= 1,
            ;
        }
    }
}

/// The arctangent of `1 / k` for `k` at least five lies between half and one and a half
/// times its first term `z`, give or take a unit, and `z` is `t / k` to nearest.
proof fn lemma_arctan_bounds(s: nat, k: nat)
    requires
        k >= 5,
        ten_pow(s) >= 100,
    ensures
        ({
            let z = div_rounded(ten_pow(s) as int, k as int, RoundingMode::HalfEven);
            &&& 2 * (z * k) <= 2 * ten_pow(s) + k
            &&& 2 * ten_pow(s) <= 2 * (z * k) + k
            &&& z - 2 <= 2 * arctan_value(s, k)
            &&& 2 * arctan_value(s, k) <= 3 * z + 2
        }),
{
    let t = ten_pow(s) as int;
    let kk = k as int;
    lemma_nearest(t, kk);
    let z = div_rounded(t, kk, RoundingMode::HalfEven);
    if z >= 1 {
        assert((2 * z - 1) * kk == 2 * (z * kk) - kk) by (nonlinear_arith);
        assert(5 * (2 * z - 1) <= (2 * z - 1) * kk) by (nonlinear_arith)
            requires
                kk >= 5,
                z >= 1,
        ;
    }
    assert(10 * z <= 2 * t + 5);
    lemma_product_nearest(z, z, s);
    let z2 = fixed_product(z, z, s);
    assert(4 * z2 <= t) by (nonlinear_arith)
        requires
            2 * (z2 * t) <= 2 * (z * z) + t,
            10 * z <= 2 * t + 5,
            z >= 0,
            z2 >= 0,
            t >= 100,
    ;
    lemma_arctan_steps_close(z, z, z2, 1, series_terms(s), s);
    lemma_product_nearest(z, z2, s);
    let p1 = fixed_product(z, z2, s);
    assert(4 * p1 <= z + 2) by (nonlinear_arith)
        requires
            2 * (p1 * t) <= 2 * (z * z2) + t,
            4 * z2 <= t,
            z >= 0,
            t >= 1,
    ;
}

/// Pi is at least one unit at every scale.
pub proof fn lemma_pi_positive(s: u32)
    ensures
        pi_value(s) >= 1,
{
    if s <= PRECOMPUTED_CONSTANT_SCALE {
        lemma_read_constants(s);
    } else {
        lemma_ten_pow_hundred(s as nat);
        lemma_arctan_bounds(s as nat, 5);
        lemma_arctan_bounds(s as nat, 239);
    }
}

/// Pi and the logarithm of ten are at least one unit at every scale, so that the sine,
/// the cosine and the base-ten logarithm never lack them.
pub proof fn lemma_constants_positive(s: u32)
    ensures
        pi_value(s) >= 1,
        ln_ten_value(s) >= 1,
{
    lemma_pi_positive(s);
    lemma_ln_ten_positive(s);
}

/// A product of nonnegative mantissas is nonnegative.
pub(crate) proof fn lemma_product_nonnegative(a: int, b: int, s: nat)
    requires
        a >= 0,
        b >= 0,
    ensures
        fixed_product(a, b, s) >= 0,
{
    lemma_product_nearest(a, b, s);
}

/// A nonnegative quotient by a positive divisor, rounded to nearest, is nonnegative.
pub(crate) proof fn lemma_quotient_nonnegative(n: int, d: int)
    requires
        n >= 0,
        d >= 1,
    ensures
        div_rounded(n, d, RoundingMode::HalfEven) >= 0,
{
    lemma_nearest(n, d);
}

} // verus!
