//! The values that iterative evaluation computes, described step by step: each series term,
//! square root and halving rounded at the working scale as the evaluation rounds it.
use vstd::arithmetic::div_mod::*;
use vstd::arithmetic::power::*;
use vstd::prelude::*;

use crate::eval::{decimal_exponent_of, literal_mantissa, shifted};
use crate::fixed::{div_rounded, fixed_product, fixed_quotient, rounded_sqrt};
use crate::rounding::{floor_root, lemma_floor_root, sqrt_round_up_due, ten_pow, RoundingMode};
use crate::series::{series_terms, LN_10_DECIMAL, PI_DECIMAL, PRECOMPUTED_CONSTANT_SCALE};
use crate::signed::{abs, sign_of, Sign};

verus! {

/// Every number has an integer square root.
pub proof fn lemma_isqrt_exists(n: nat) -> (r: nat)
    ensures
        r * r <= n < (r + 1) * (r + 1),
    decreases n,
{
    if n == 0 {
        let r: nat = 0;
        assert(r * r <= n < (r + 1) * (r + 1)) by (nonlinear_arith)
            requires
                r == 0,
                n == 0,
        ;
        r
    } else {
        let q = lemma_isqrt_exists((n - 1) as nat);
        assert(q * q <= n - 1 && n - 1 < (q + 1) * (q + 1));
        if (q + 1) * (q + 1) <= n {
            let r = q + 1;
            assert(n < (r + 1) * (r + 1)) by (nonlinear_arith)
                requires
                    n - 1 < (q + 1) * (q + 1),
                    r == q + 1,
            ;
            assert(r * r <= n);
            r
        } else {
            assert(q * q <= n);
            assert(n < (q + 1) * (q + 1));
            q
        }
    }
}

/// One square-root step of the logarithm's reduction moves `m` strictly towards `t`
/// without passing it.
pub proof fn lemma_sqrt_step(m: nat, t: nat)
    requires
        m >= 1,
        t >= 1,
        m > t || m + 2 <= t,
    ensures
        m > t ==> t <= rounded_sqrt(m * t, RoundingMode::HalfEven) < m,
        m + 2 <= t ==> m < rounded_sqrt(m * t, RoundingMode::HalfEven) <= t,
{
    let n = m * t;
    let r = lemma_isqrt_exists(n);
    lemma_square_is_pow2(r as int);
    lemma_square_is_pow2((r + 1) as int);
    lemma_floor_root(n, 2, r);
    assert(floor_root(n, 2) == r);
    let rem = (n - r * r) as nat;
    let up = sqrt_round_up_due(r, rem, RoundingMode::HalfEven);
    assert(rounded_sqrt(n, RoundingMode::HalfEven) == r + if up {
        1nat
    } else {
        0nat
    });
    if m > t {
        assert(t <= r && r < m) by (nonlinear_arith)
            requires
                r * r <= m * t,
                m * t < (r + 1) * (r + 1),
                m > t,
                t >= 1,
        ;
        if r + 1 == m {
            assert(rem <= r) by (nonlinear_arith)
                requires
                    rem == m * t - r * r,
                    r + 1 == m,
                    t <= r,
            ;
        }
    } else {
        assert(m <= r && r < t) by (nonlinear_arith)
            requires
                r * r <= m * t,
                m * t < (r + 1) * (r + 1),
                m + 2 <= t,
                m >= 1,
        ;
        if r == m {
            assert(4 * rem > 4 * r + 1) by (nonlinear_arith)
                requires
                    rem == m * t - r * r,
                    r == m,
                    m + 2 <= t,
                    m >= 1,
            ;
        }
    }
}

/// Halving with ties to even takes a positive value strictly down, and keeps it nonnegative.
pub proof fn lemma_halve(m: int)
    requires
        m >= 1,
    ensures
        0 <= div_rounded(m, 2, RoundingMode::HalfEven) < m,
{
    lemma_fundamental_div_mod(m, 2);
    assert(sign_of(m) == Sign::Positive);
}

/// The logarithm's series in `z` from power `power` and partial sum `sum`, at step `n` of
/// at most `terms`: each step multiplies the power by `z2` and adds it over `2n + 1`,
/// rounding at scale `s`; the sum stops at a zero addend, and after adding an addend of at
/// most one unit.
pub open spec fn ln_steps(power: int, sum: int, z2: int, n: nat, terms: nat, s: nat) -> int
    decreases terms + 1 - n,
{
    if n > terms {
        sum
    } else {
        let next_power = fixed_product(power, z2, s);
        let addend = div_rounded(next_power, (2 * n + 1) as int, RoundingMode::HalfEven);
        if addend == 0 {
            sum
        } else if abs(addend) <= 1 {
            sum + addend
        } else {
            ln_steps(next_power, sum + addend, z2, n + 1, terms, s)
        }
    }
}

/// The arctangent's alternating series, as `ln_steps` but subtracting at odd steps.
pub open spec fn arctan_steps(power: int, sum: int, z2: int, n: nat, terms: nat, s: nat) -> int
    decreases terms + 1 - n,
{
    if n > terms {
        sum
    } else {
        let next_power = fixed_product(power, z2, s);
        let addend = div_rounded(next_power, (2 * n + 1) as int, RoundingMode::HalfEven);
        if addend == 0 {
            sum
        } else {
            let next_sum = if n % 2 == 1 {
                sum - addend
            } else {
                sum + addend
            };
            if abs(addend) <= 1 {
                next_sum
            } else {
                arctan_steps(next_power, next_sum, z2, n + 1, terms, s)
            }
        }
    }
}

/// The exponential's series in `x` from term `term` and partial sum `sum`: each step
/// multiplies the term by `x` and divides it by `n`, rounding at scale `s`; the sum stops
/// at a zero term, and after adding a term of at most one unit.
pub open spec fn exp_steps(term: int, sum: int, x: int, n: nat, terms: nat, s: nat) -> int
    decreases terms + 1 - n,
{
    if n > terms {
        sum
    } else {
        let next = div_rounded(fixed_product(term, x, s), n as int, RoundingMode::HalfEven);
        if next == 0 {
            sum
        } else if abs(next) <= 1 {
            sum + next
        } else {
            exp_steps(next, sum + next, x, n + 1, terms, s)
        }
    }
}

/// The sine's series from term `term` and partial sum `sum`: each step multiplies the term
/// by `-x2` and divides it by `2n` and by `2n + 1`, rounding each time at scale `s`.
pub open spec fn sin_steps(term: int, sum: int, x2: int, n: nat, terms: nat, s: nat) -> int
    decreases terms + 1 - n,
{
    if n > terms {
        sum
    } else {
        let next = div_rounded(
            div_rounded(-fixed_product(term, x2, s), (2 * n) as int, RoundingMode::HalfEven),
            (2 * n + 1) as int,
            RoundingMode::HalfEven,
        );
        if next == 0 {
            sum
        } else if abs(next) <= 1 {
            sum + next
        } else {
            sin_steps(next, sum + next, x2, n + 1, terms, s)
        }
    }
}

/// The cosine's series from term `term` and partial sum `sum`: each step multiplies the
/// term by `-x2` and divides it by `2n - 1` and by `2n`, rounding each time at scale `s`.
pub open spec fn cos_steps(term: int, sum: int, x2: int, n: nat, terms: nat, s: nat) -> int
    decreases terms + 1 - n,
{
    if n > terms {
        sum
    } else {
        let next = div_rounded(
            div_rounded(-fixed_product(term, x2, s), 2 * n - 1, RoundingMode::HalfEven),
            (2 * n) as int,
            RoundingMode::HalfEven,
        );
        if next == 0 {
            sum
        } else if abs(next) <= 1 {
            sum + next
        } else {
            cos_steps(next, sum + next, x2, n + 1, terms, s)
        }
    }
}

/// The conditions under which one more square root of the logarithm's reduction is taken.
pub open spec fn sqrt_reduction_continues(m: int, t: int, thr: int) -> bool {
    &&& m >= 1
    &&& t >= 1
    &&& thr >= 0
    &&& (t == 1 || thr >= 1)
    &&& (m < t - thr || m > t + thr)
}

/// Square roots of `m` at a scale where one is `t`, taken until `m` lies within `thr` of
/// one, and how many were taken beyond `count`.
pub open spec fn sqrt_reduction(m: int, t: int, thr: int, count: nat) -> (int, nat)
    decreases (if m >= t {
        m - t
    } else {
        t - m
    }),
{
    if sqrt_reduction_continues(m, t, thr) {
        proof {
            lemma_sqrt_step(m as nat, t as nat);
        }
        sqrt_reduction(
            rounded_sqrt((m * t) as nat, RoundingMode::HalfEven) as int,
            t,
            thr,
            count + 1,
        )
    } else {
        (m, count)
    }
}

/// Halvings of `m`, ties to even, until it is at most `thr`, and how many were taken
/// beyond `count`.
pub open spec fn halving(m: int, thr: int, count: nat) -> (int, nat)
    decreases m,
{
    if m > thr && thr >= 0 {
        proof {
            lemma_halve(m);
        }
        halving(div_rounded(m, 2, RoundingMode::HalfEven), thr, count + 1)
    } else {
        (m, count)
    }
}

/// `v` squared `k` times at scale `s`.
pub open spec fn squarings(v: int, k: nat, s: nat) -> int
    decreases k,
{
    if k == 0 {
        v
    } else {
        squarings(fixed_product(v, v, s), (k - 1) as nat, s)
    }
}

/// An eighth of one at scale `s`, ties to even: how far from one the reductions stop.
pub open spec fn reduction_threshold(s: nat) -> int {
    div_rounded(ten_pow(s) as int, 8, RoundingMode::HalfEven)
}

/// The natural logarithm at scale `s` of a positive mantissa `m`: square roots bring it
/// within an eighth of one, the series in `(x - 1) / (x + 1)` is summed and doubled, and
/// doubled again once per square root.
pub open spec fn ln_core_value(m: int, s: nat) -> int {
    let t = ten_pow(s) as int;
    let (r, k) = sqrt_reduction(m, t, reduction_threshold(s), 0);
    let z = fixed_quotient(r - t, r + t, s, RoundingMode::HalfEven);
    let sum = ln_steps(z, z, fixed_product(z, z, s), 1, series_terms(s), s);
    sum * 2 * pow(2, k)
}

/// The value of a decimal literal, or zero where it is malformed.
pub open spec fn literal_value(lit: Seq<char>, s: u32) -> int {
    match literal_mantissa(lit, s) {
        Some(v) => v,
        None => 0,
    }
}

/// The natural logarithm of ten at scale `s`: read up to the precomputed scale, computed
/// beyond it.
pub open spec fn ln_ten_value(s: u32) -> int {
    if s <= PRECOMPUTED_CONSTANT_SCALE {
        literal_value(LN_10_DECIMAL@, s)
    } else {
        ln_core_value((10 * ten_pow(s as nat)) as int, s as nat)
    }
}

/// The natural logarithm at scale `s` of a positive mantissa `m` with decimal exponent
/// `e`: that of `m / 10^e` plus `e` times that of ten.
pub open spec fn ln_value(m: int, s: u32) -> int {
    let e = decimal_exponent_of(m, s as nat);
    if e == 0 {
        ln_core_value(m, s as nat)
    } else {
        ln_core_value(shifted(m, e), s as nat) + ln_ten_value(s) * e
    }
}

/// The exponential at scale `s`: the magnitude halved until at most an eighth, the series
/// summed, the sum squared once per halving, and one over it for a negative value.
pub open spec fn exp_value(m: int, s: nat) -> int {
    let t = ten_pow(s) as int;
    let (r, k) = halving(abs(m) as int, reduction_threshold(s), 0);
    let v = squarings(exp_steps(t, t, r, 1, series_terms(s), s), k, s);
    if m < 0 {
        fixed_quotient(t, v, s, RoundingMode::HalfEven)
    } else {
        v
    }
}

/// The arctangent of `1 / k` at scale `s` by its series.
pub open spec fn arctan_value(s: nat, k: nat) -> int {
    let z = div_rounded(ten_pow(s) as int, k as int, RoundingMode::HalfEven);
    arctan_steps(z, z, fixed_product(z, z, s), 1, series_terms(s), s)
}

/// Pi at scale `s`: read up to the precomputed scale, by Machin's formula beyond it.
pub open spec fn pi_value(s: u32) -> int {
    if s <= PRECOMPUTED_CONSTANT_SCALE {
        literal_value(PI_DECIMAL@, s)
    } else {
        16 * arctan_value(s as nat, 5) - 4 * arctan_value(s as nat, 239)
    }
}

/// The value less the nearest whole number of turns, folded into a half turn about zero,
/// with the signs that the sine and the cosine take from the fold.
pub open spec fn trig_reduction(m: int, s: u32) -> (int, int, int) {
    let pi = pi_value(s);
    let tau = pi * 2;
    let quarter = div_rounded(pi, 2, RoundingMode::HalfEven);
    let reduced = m - tau * div_rounded(m, tau, RoundingMode::HalfEven);
    if reduced > quarter {
        (pi - reduced, 1, -1)
    } else if reduced < -quarter {
        (pi + reduced, -1, -1)
    } else {
        (reduced, 1, 1)
    }
}

/// The series sine of a folded value.
pub open spec fn sin_series_value(r: int, s: nat) -> int {
    sin_steps(r, r, fixed_product(r, r, s), 1, series_terms(s), s)
}

/// The series cosine of a folded value.
pub open spec fn cos_series_value(r: int, s: nat) -> int {
    let t = ten_pow(s) as int;
    cos_steps(t, t, fixed_product(r, r, s), 1, series_terms(s), s)
}

/// `v`, negated where `sign` is negative.
pub open spec fn with_sign(sign: int, v: int) -> int {
    if sign < 0 {
        -v
    } else {
        v
    }
}

/// The sine at scale `s`.
pub open spec fn sin_value(m: int, s: u32) -> int {
    let (r, sin_sign, _) = trig_reduction(m, s);
    with_sign(sin_sign, sin_series_value(r, s as nat))
}

/// The cosine at scale `s`.
pub open spec fn cos_value(m: int, s: u32) -> int {
    let (r, _, cos_sign) = trig_reduction(m, s);
    with_sign(cos_sign, cos_series_value(r, s as nat))
}

/// Half a unit of scale `target` at scale `s`, or one unit of `s` where it is not finer.
pub open spec fn half_target_unit(s: u32, target: u32) -> int {
    if s <= target {
        1
    } else {
        (5 * ten_pow((s - target - 1) as nat)) as int
    }
}

/// The tangent at scale `s`, or `None` where pi is zero, where the folded value lies within
/// half a unit of scale `target` of a quarter turn, or where the cosine is that small.
pub open spec fn tan_value(m: int, s: u32, target: u32) -> Option<int> {
    let pi = pi_value(s);
    let (r, sin_sign, cos_sign) = trig_reduction(m, s);
    let quarter = div_rounded(pi, 2, RoundingMode::HalfEven);
    let h = half_target_unit(s, target);
    let sine = with_sign(sin_sign, sin_series_value(r, s as nat));
    let cosine = with_sign(cos_sign, cos_series_value(r, s as nat));
    if pi == 0 || abs(abs(r) - quarter) <= h || abs(cosine) <= h {
        None
    } else {
        Some(fixed_quotient(sine, cosine, s as nat, RoundingMode::HalfEven))
    }
}

} // verus!
