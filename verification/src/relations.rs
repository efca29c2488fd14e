//! Relations that the iterative functions and the roots keep over all their inputs: how
//! a logarithm moves with a power of ten, how an exponential squares, how far the argument
//! of the trigonometric functions is folded, when the tangent gives up, and how a root
//! raised to its degree brackets the value it was taken of.
use vstd::arithmetic::div_mod::*;
use vstd::arithmetic::mul::*;
use vstd::arithmetic::power::*;
use vstd::prelude::*;

use crate::eval::{decimal_exponent_of, digit_count, lemma_digit_count, shifted};
use crate::constants::lemma_pi_positive;
use crate::bits::{lemma_pow_base_mono, lemma_pow_base_strict};
use crate::fixed::{
    div_rounded,
    fixed_product,
    fixed_quotient,
    fixed_root,
    rounded_root,
    rounded_sqrt,
    saturating_product,
};
use crate::laws::lemma_quotient_error;
use crate::rounding::{
    lemma_floor_root,
    lemma_ten_pow_add,
    lemma_ten_pow_pos,
    round_up_due,
    rounded_div,
    ten_pow,
    RoundingMode,
};
use crate::signed::{abs, sign_of, spec_sign_product, Sign};
use crate::series::series_terms;
use crate::steps::{
    exp_steps,
    exp_value,
    halving,
    lemma_halve,
    lemma_sqrt_step,
    ln_steps,
    sqrt_reduction,
    sqrt_reduction_continues,
    ln_core_value,
    ln_ten_value,
    cos_value,
    half_target_unit,
    ln_value,
    pi_value,
    sin_value,
    tan_value,
    reduction_threshold,
    trig_reduction,
    squarings,
};

verus! {

/// Ten to a larger power is larger.
proof fn lemma_ten_pow_le(a: nat, b: nat)
    requires
        a <= b,
    ensures
        ten_pow(a) <= ten_pow(b),
{
    lemma_pow_increases(10, a, b);
    lemma_ten_pow_pos(a);
    lemma_ten_pow_pos(b);
}

/// A number between consecutive powers of ten has the digits of the larger exponent.
proof fn lemma_digit_count_between(n: nat, d: nat)
    requires
        d >= 1,
        ten_pow((d - 1) as nat) <= n < ten_pow(d),
    ensures
        digit_count(n) == d,
{
    lemma_ten_pow_pos((d - 1) as nat);
    lemma_digit_count(n);
    let c = digit_count(n);
    if c < d {
        lemma_ten_pow_le(c, (d - 1) as nat);
    } else if c > d {
        lemma_ten_pow_le(d, (c - 1) as nat);
    }
}

/// Multiplying by ten to `k` adds `k` to the decimal exponent.
proof fn lemma_decimal_exponent_scaled(m: int, s: nat, k: nat)
    requires
        m > 0,
    ensures
        decimal_exponent_of(m * ten_pow(k), s) == decimal_exponent_of(m, s) + k,
{
    lemma_digit_count(m as nat);
    let d = digit_count(m as nat);
    lemma_ten_pow_pos(k);
    lemma_ten_pow_add((d - 1) as nat, k);
    lemma_ten_pow_add(d, k);
    let lo = ten_pow((d - 1) as nat) as int;
    let hi = ten_pow(d) as int;
    let t = ten_pow(k) as int;
    assert(lo * t <= m * t && m * t < hi * t) by (nonlinear_arith)
        requires
            lo <= m < hi,
            t >= 1,
    ;
    assert(((d - 1) as nat + k) as nat == (d + k - 1) as nat);
    assert(m * t > 0) by (nonlinear_arith)
        requires
            m > 0,
            t >= 1,
    ;
    assert(abs(m * t) == m * t);
    lemma_digit_count_between((m * t) as nat, d + k);
}

/// A rounded quotient does not change when numerator and divisor are multiplied alike.
proof fn lemma_div_rounded_scaled(n: int, d: int, c: int)
    requires
        n > 0,
        d > 0,
        c > 0,
    ensures
        div_rounded(n * c, d * c, RoundingMode::HalfEven) == div_rounded(n, d, RoundingMode::HalfEven),
{
    lemma_fundamental_div_mod(n, d);
    lemma_mod_pos_bound(n, d);
    let q = n / d;
    let r = n % d;
    assert(n * c == q * (d * c) + r * c && 0 <= r * c < d * c && d * c > 0 && n * c > 0)
        by (nonlinear_arith)
        requires
            n == q * d + r,
            0 <= r < d,
            c > 0,
            n > 0,
    ;
    lemma_fundamental_div_mod_converse(n * c, d * c, q, r * c);
    assert((r * c == 0) == (r == 0) && (2 * (r * c) > d * c) == (2 * r > d) && (2 * (r * c) == d
        * c) == (2 * r == d)) by (nonlinear_arith)
        requires
            c > 0,
            r >= 0,
    ;
    assert(sign_of(n * c) == Sign::Positive && sign_of(d * c) == Sign::Positive);
    assert(sign_of(n) == Sign::Positive && sign_of(d) == Sign::Positive);
    assert(round_up_due(q as nat, (r * c) as nat, (d * c) as nat, Sign::Positive, RoundingMode::HalfEven)
        == round_up_due(q as nat, r as nat, d as nat, Sign::Positive, RoundingMode::HalfEven));
}

/// Dividing an exact multiple gives the factor back.
proof fn lemma_div_rounded_exact(a: int, d: int)
    requires
        a > 0,
        d > 0,
    ensures
        div_rounded(a * d, d, RoundingMode::HalfEven) == a,
{
    assert(a * d > 0) by (nonlinear_arith)
        requires
            a > 0,
            d > 0,
    ;
    lemma_fundamental_div_mod_converse(a * d, d, a, 0);
    assert(sign_of(a * d) == Sign::Positive && sign_of(d) == Sign::Positive);
}

/// The natural logarithm of a positive value multiplied by ten to `k` is that of the
/// value plus `k` times the logarithm of ten, exactly, at every scale.
pub proof fn lemma_ln_decades(m: int, s: u32, k: nat)
    requires
        m > 0,
    ensures
        ln_value(m * ten_pow(k), s) == ln_value(m, s) + k * ln_ten_value(s),
{
    let big = m * ten_pow(k);
    let t = ten_pow(k) as int;
    lemma_ten_pow_pos(k);
    lemma_decimal_exponent_scaled(m, s as nat, k);
    let e = decimal_exponent_of(m, s as nat);
    let e2 = e + k;
    let l = ln_ten_value(s);
    assert(big > 0) by (nonlinear_arith)
        requires
            big == m * t,
            m > 0,
            t >= 1,
    ;
    if k == 0 {
        lemma_pow0(10);
        assert(ten_pow(0) == 1);
        lemma_mul_basics(m);
        assert(big == m);
        assert(k * l == 0);
        return;
    }
    if e2 == 0 {
        // e == -k: the value is brought up by exactly the factor applied
        assert(e < 0);
        assert((-e) as nat == k);
        assert(shifted(m, e) == big);
        assert(l * e == -(k * l)) by (nonlinear_arith)
            requires
                e == -(k as int),
        ;
        assert(ln_value(big, s) == ln_core_value(big, s as nat));
        assert(ln_value(m, s) == ln_core_value(shifted(m, e), s as nat) + l * e);
    } else {
        assert(ln_value(big, s) == ln_core_value(shifted(big, e2), s as nat) + l * e2);
        assert(l * e2 == l * e + k * l) by (nonlinear_arith)
            requires
                e2 == e + k,
        ;
        if e >= 0 {
            let te = ten_pow(e as nat) as int;
            lemma_ten_pow_pos(e as nat);
            lemma_ten_pow_add(e as nat, k);
            assert((e as nat + k) as nat == e2 as nat);
            assert(shifted(big, e2) == div_rounded(big, te * t, RoundingMode::HalfEven));
            if e == 0 {
                lemma_pow0(10);
                lemma_mul_basics(t);
                lemma_div_rounded_exact(m, t);
                assert(shifted(big, e2) == m);
                assert(ln_value(m, s) == ln_core_value(m, s as nat));
                assert(l * e == 0);
            } else {
                lemma_div_rounded_scaled(m, te, t);
                assert(shifted(big, e2) == shifted(m, e));
            }
        } else if e2 > 0 {
            let up = ten_pow((-e) as nat) as int;
            let down = ten_pow(e2 as nat) as int;
            lemma_ten_pow_pos((-e) as nat);
            lemma_ten_pow_pos(e2 as nat);
            lemma_ten_pow_add((-e) as nat, e2 as nat);
            assert(((-e) as nat + e2 as nat) as nat == k);
            assert(big == (m * up) * down) by (nonlinear_arith)
                requires
                    big == m * t,
                    t == up * down,
            ;
            assert(m * up > 0) by (nonlinear_arith)
                requires
                    m > 0,
                    up >= 1,
            ;
            lemma_div_rounded_exact(m * up, down);
            assert(shifted(big, e2) == shifted(m, e));
        } else {
            let up = ten_pow((-e2) as nat) as int;
            lemma_ten_pow_add(k, (-e2) as nat);
            assert((k + (-e2) as nat) as nat == (-e) as nat);
            assert(big * up == m * ten_pow((-e) as nat)) by (nonlinear_arith)
                requires
                    big == m * t,
                    ten_pow((-e) as nat) == t * up,
            ;
            assert(shifted(big, e2) == shifted(m, e));
        }
    }
}

/// Halving does not depend on where its count starts.
proof fn lemma_halving_count(m: int, thr: int, count: nat)
    ensures
        halving(m, thr, count).0 == halving(m, thr, 0).0,
        halving(m, thr, count).1 == halving(m, thr, 0).1 + count,
    decreases m,
{
    if m > thr && thr >= 0 {
        lemma_halve(m);
        let h = div_rounded(m, 2, RoundingMode::HalfEven);
        lemma_halving_count(h, thr, count + 1);
        lemma_halving_count(h, thr, 1);
    }
}

/// Squaring `k` times and then once more is squaring once and then `k` times.
proof fn lemma_squarings_last(v: int, k: nat, s: nat)
    ensures
        squarings(v, k + 1, s) == fixed_product(squarings(v, k, s), squarings(v, k, s), s),
    decreases k,
{
    let w = fixed_product(v, v, s);
    assert(squarings(v, k + 1, s) == squarings(w, k, s));
    if k > 0 {
        lemma_squarings_last(w, (k - 1) as nat, s);
        assert((k - 1) as nat + 1 == k);
        assert(squarings(v, k, s) == squarings(w, (k - 1) as nat, s));
    } else {
        assert(squarings(w, 0, s) == w);
        assert(squarings(v, 0, s) == v);
    }
}

/// The exponential of twice a value beyond the reduction threshold is the square of the
/// exponential of the value, exactly at the working scale: one more halving brings it to
/// the same reduced argument, and one more squaring undoes it.
pub proof fn lemma_exp_double(m: int, s: nat)
    requires
        m >= 0,
        2 * m > reduction_threshold(s),
    ensures
        exp_value(2 * m, s) == fixed_product(exp_value(m, s), exp_value(m, s), s),
{
    let thr = reduction_threshold(s);
    lemma_ten_pow_pos(s);
    assert(thr >= 0) by {
        assert(sign_of(ten_pow(s) as int) == Sign::Positive);
        assert(sign_of(8) == Sign::Positive);
    }
    lemma_div_rounded_exact_two(m);
    assert(abs(2 * m) == 2 * m && abs(m) == m);
    assert(halving(2 * m, thr, 0) == halving(m, thr, 1));
    lemma_halving_count(m, thr, 1);
    let (r, k) = halving(m, thr, 0);
    let t = ten_pow(s) as int;
    let sum = exp_steps(t, t, r, 1, series_terms(s), s);
    lemma_squarings_last(sum, k, s);
    assert(exp_value(m, s) == squarings(sum, k, s));
    assert(exp_value(2 * m, s) == squarings(sum, k + 1, s));
}

/// Halving an even value is exact.
proof fn lemma_div_rounded_exact_two(m: int)
    requires
        m >= 0,
    ensures
        div_rounded(2 * m, 2, RoundingMode::HalfEven) == m,
{
    if m > 0 {
        lemma_div_rounded_exact(m, 2);
        assert(m * 2 == 2 * m);
    }
}

/// The exponential of a negated value is one over the exponential of the value.
pub proof fn lemma_exp_negation(m: int, s: nat)
    requires
        m > 0,
    ensures
        exp_value(-m, s) == fixed_quotient(ten_pow(s) as int, exp_value(m, s), s, RoundingMode::HalfEven),
{
    assert(abs(-m) == abs(m));
}

/// The argument of the sine and the cosine is folded to within a quarter turn (and half
/// a unit) of zero, and differs from the value by whole turns, the fold through a half
/// turn showing in the signs: with no sign change the value is the folded argument plus
/// whole turns; with the cosine's sign changed it is a half turn less the folded argument;
/// with both changed it is the folded argument less a half turn.
pub proof fn lemma_trig_reduction(m: int, s: u32)
    ensures
        ({
            let pi = pi_value(s);
            let (r, sin_sign, cos_sign) = trig_reduction(m, s);
            &&& 2 * abs(r) <= pi + 1
            &&& sin_sign == 1 && cos_sign == 1 ==> (m - r) % (2 * pi) == 0
            &&& sin_sign == 1 && cos_sign == -1 ==> (m + r - pi) % (2 * pi) == 0
            &&& sin_sign == -1 && cos_sign == -1 ==> (m - r + pi) % (2 * pi) == 0
            &&& (sin_sign == 1 && cos_sign == 1) || (sin_sign == 1 && cos_sign == -1) || (
            sin_sign == -1 && cos_sign == -1)
        }),
{
    let pi = pi_value(s);
    lemma_pi_positive(s);
    let tau = pi * 2;
    let quarter = div_rounded(pi, 2, RoundingMode::HalfEven);
    let q = div_rounded(m, tau, RoundingMode::HalfEven);
    let reduced = m - tau * q;
    lemma_quotient_error(m, tau, 0, RoundingMode::HalfEven);
    lemma_quotient_error(pi, 2, 0, RoundingMode::HalfEven);
    lemma_pow0(10);
    assert(ten_pow(0) == 1);
    lemma_mul_basics(m);
    lemma_mul_basics(pi);
    assert(fixed_quotient(m, tau, 0, RoundingMode::HalfEven) == q);
    assert(fixed_quotient(pi, 2, 0, RoundingMode::HalfEven) == quarter);
    assert(2 * abs(q * tau - m) <= tau);
    assert(2 * abs(quarter * 2 - pi) <= 2);
    lemma_mul_is_commutative(q, tau);
    assert(-pi <= reduced <= pi);
    assert(2 * quarter <= pi + 1 && pi <= 2 * quarter + 1);
    lemma_mod_multiples_basic(q, tau);
    assert(2 * pi == tau);
}

/// The tangent at a working scale finer than the public one: it is given up exactly where
/// the folded argument lies within half a unit of the public scale of a quarter turn, or
/// the cosine is within half such a unit of zero; elsewhere it is the sine over the cosine.
pub proof fn lemma_tan_poles(m: int, s: u32, target: u32)
    requires
        target < s,
    ensures
        ({
            let unit = ten_pow((s - target) as nat) as int;
            let (r, _, _) = trig_reduction(m, s);
            let quarter = div_rounded(pi_value(s), 2, RoundingMode::HalfEven);
            let cosine = cos_value(m, s);
            &&& tan_value(m, s, target) is None <==> 2 * abs(abs(r) - quarter) <= unit || 2 * abs(
                cosine,
            ) <= unit
            &&& tan_value(m, s, target) matches Some(v) ==> v == fixed_quotient(
                sin_value(m, s),
                cosine,
                s as nat,
                RoundingMode::HalfEven,
            )
        }),
{
    lemma_pi_positive(s);
    let j = (s - target - 1) as nat;
    lemma_ten_pow_add(j, 1);
    lemma_pow1(10);
    assert(ten_pow(1) == 10);
    assert((j + 1) as nat == (s - target) as nat);
    assert(half_target_unit(s, target) == 5 * ten_pow(j));
    let tj = ten_pow(j) as int;
    assert(ten_pow(j + 1) == tj * 10);
    assert(ten_pow((s - target) as nat) == ten_pow(j + 1));
    let h = half_target_unit(s, target);
    let u = ten_pow((s - target) as nat) as int;
    assert(2 * h == u) by (nonlinear_arith)
        requires
            h == 5 * tj,
            u == tj * 10,
    ;
}

/// Every natural number has an integer root of every positive degree.
proof fn lemma_iroot_exists(n: nat, k: nat) -> (r: nat)
    requires
        k >= 1,
    ensures
        pow(r as int, k) <= n < pow((r + 1) as int, k),
    decreases n,
{
    if n == 0 {
        lemma0_pow(k);
        lemma1_pow(k);
        0
    } else {
        let q = lemma_iroot_exists((n - 1) as nat, k);
        if pow((q + 1) as int, k) <= n {
            lemma_pow_base_strict((q + 1) as nat, (q + 2) as nat, k);
            (q + 1) as nat
        } else {
            q
        }
    }
}

/// The rounded root of degree `k` raised to `k` brackets the radicand: one less than the
/// root falls at or below it and one more lies above it, and rounding towards zero gives
/// a root whose power does not exceed it.
pub proof fn lemma_rounded_root_bracket(n: nat, k: nat, mode: RoundingMode)
    requires
        k >= 1,
    ensures
        ({
            let r = rounded_root(n, k, mode);
            &&& r >= 1 ==> pow(r - 1, k) <= n
            &&& n < pow(r + 1 as int, k)
            &&& mode == RoundingMode::Down || mode == RoundingMode::Floor ==> pow(r as int, k) <= n
        }),
{
    let f = lemma_iroot_exists(n, k);
    lemma_floor_root(n, k, f);
    let r = rounded_root(n, k, mode);
    lemma_pow_base_strict(f, (f + 1) as nat, k);
    lemma_pow_base_strict((f + 1) as nat, (f + 2) as nat, k);
    if r == f {
        if f >= 1 {
            lemma_pow_base_mono((f - 1) as nat, f, k);
        }
    } else {
        assert(r == f + 1);
    }
}

/// The root of degree `k` of a nonnegative value with mantissa `m` at scale `s`, raised
/// to `k`, brackets the value: with `r` its mantissa, `(r - 1)^k <= m * 10^(s(k-1)) <
/// (r + 1)^k`, which is `m / 10^s` at scale `s * k`; towards zero, `r^k` does not exceed it.
pub proof fn lemma_nth_root_bracket(m: int, s: u32, k: u32, mode: RoundingMode)
    requires
        m >= 0,
        k >= 1,
        s * (k - 1) <= u32::MAX,
    ensures
        ({
            let r = fixed_root(m, s, k, mode);
            let n = m * ten_pow((s * (k - 1)) as nat);
            &&& r >= 0
            &&& r >= 1 ==> pow(r - 1, k as nat) <= n
            &&& n < pow(r + 1, k as nat)
            &&& mode == RoundingMode::Down || mode == RoundingMode::Floor ==> pow(r, k as nat) <= n
        }),
{
    let e = (s * (k - 1)) as nat;
    assert(saturating_product(s, (k - 1) as u32) == e);
    lemma_ten_pow_pos(e);
    let n = m * ten_pow(e);
    assert(n >= 0) by (nonlinear_arith)
        requires
            m >= 0,
            n == m * ten_pow(e),
    ;
    assert(abs(m) == m);
    lemma_rounded_root_bracket(n as nat, k as nat, mode);
    if m == 0 {
        lemma_mul_basics(ten_pow(e) as int);
        assert(n == 0);
        lemma0_pow(k as nat);
        lemma1_pow(k as nat);
    }
}

/// The logarithm's reduction does not depend on where its count starts.
proof fn lemma_reduction_count(m: int, t: int, thr: int, count: nat)
    ensures
        sqrt_reduction(m, t, thr, count).0 == sqrt_reduction(m, t, thr, 0).0,
        sqrt_reduction(m, t, thr, count).1 == sqrt_reduction(m, t, thr, 0).1 + count,
    decreases (if m >= t {
        m - t
    } else {
        t - m
    }),
{
    if sqrt_reduction_continues(m, t, thr) {
        lemma_sqrt_step(m as nat, t as nat);
        let next = rounded_sqrt((m * t) as nat, RoundingMode::HalfEven) as int;
        lemma_reduction_count(next, t, thr, count + 1);
        lemma_reduction_count(next, t, thr, 1);
    }
}

/// The logarithm of a value outside the band about one where the series is summed is
/// twice the logarithm of its square root: `ln x = 2 ln sqrt(x)`, exactly at the scale.
pub proof fn lemma_ln_square_root(m: int, s: nat)
    requires
        m >= 1,
        m > ten_pow(s) + reduction_threshold(s) || m < ten_pow(s) - reduction_threshold(s),
    ensures
        ln_core_value(m, s) == 2 * ln_core_value(
            rounded_sqrt((m * ten_pow(s)) as nat, RoundingMode::HalfEven) as int,
            s,
        ),
{
    let t = ten_pow(s) as int;
    let thr = reduction_threshold(s);
    lemma_ten_pow_pos(s);
    assert(thr >= 0) by {
        assert(sign_of(t) == Sign::Positive);
    }
    if t != 1 {
        lemma_ten_pow_ten_or_more(s);
        lemma_quotient_error(t, 8, 0, RoundingMode::HalfEven);
        lemma_pow0(10);
        assert(ten_pow(0) == 1);
        lemma_mul_basics(t);
        assert(fixed_quotient(t, 8, 0, RoundingMode::HalfEven) == thr);
        assert(thr >= 1);
    }
    assert(sqrt_reduction_continues(m, t, thr));
    let next = rounded_sqrt((m * t) as nat, RoundingMode::HalfEven) as int;
    assert(sqrt_reduction(m, t, thr, 0) == sqrt_reduction(next, t, thr, 1));
    lemma_reduction_count(next, t, thr, 1);
    let k = sqrt_reduction(next, t, thr, 0).1;
    lemma_pow_positive(2, k);
    reveal(pow);
    assert(pow(2, k + 1) == 2 * pow(2, k));
    let r = sqrt_reduction(next, t, thr, 0).0;
    let z = fixed_quotient(r - t, r + t, s, RoundingMode::HalfEven);
    let sum = ln_steps(z, z, fixed_product(z, z, s), 1, series_terms(s), s);
    assert(sum * 2 * pow(2, k + 1) == 2 * (sum * 2 * pow(2, k))) by (nonlinear_arith)
        requires
            pow(2, k + 1) == 2 * pow(2, k),
    ;
}

/// A power of ten other than one is at least ten.
proof fn lemma_ten_pow_ten_or_more(s: nat)
    requires
        ten_pow(s) != 1,
    ensures
        ten_pow(s) >= 10,
{
    if s == 0 {
        lemma_pow0(10);
    } else {
        lemma_ten_pow_le(1, s);
        lemma_pow1(10);
    }
}

/// Below the reduction threshold the exponential is at least one plus its argument: the
/// series starts at one and the argument, and adds nothing negative.
pub proof fn lemma_exp_small_lower(m: int, s: nat)
    requires
        0 <= m <= reduction_threshold(s),
    ensures
        exp_value(m, s) >= ten_pow(s) + m,
{
    let t = ten_pow(s) as int;
    lemma_ten_pow_pos(s);
    assert(abs(m) == m);
    assert(halving(m, reduction_threshold(s), 0) == (m, 0nat));
    lemma_exp_steps_from_one(m, s);
}

/// The exponential's series from one, with a nonnegative argument, is at least one plus
/// the argument.
proof fn lemma_exp_steps_from_one(x: int, s: nat)
    requires
        x >= 0,
    ensures
        exp_steps(ten_pow(s) as int, ten_pow(s) as int, x, 1, series_terms(s), s) >= ten_pow(s) + x,
{
    let t = ten_pow(s) as int;
    lemma_ten_pow_pos(s);
    let terms = series_terms(s);
    assert(terms >= 1);
    // the first term is the argument itself
    let p = fixed_product(t, x, s);
    lemma_product_exact_one(x, s);
    assert(p == x);
    lemma_div_rounded_one(x);
    let next = div_rounded(p, 1, RoundingMode::HalfEven);
    assert(next == x);
    if next != 0 && abs(next) > 1 {
        lemma_exp_steps_above(next, t + next, x, 2, terms, s);
    }
}

/// Multiplying by one at scale `s` is exact.
proof fn lemma_product_exact_one(x: int, s: nat)
    ensures
        fixed_product(ten_pow(s) as int, x, s) == x,
{
    crate::laws::lemma_multiply_by_one(x, s);
    lemma_mul_is_commutative(ten_pow(s) as int, x);
}

/// Dividing by one changes nothing.
proof fn lemma_div_rounded_one(x: int)
    ensures
        div_rounded(x, 1, RoundingMode::HalfEven) == x,
{
    lemma_pow0(10);
    assert(ten_pow(0) == 1);
    lemma_mul_basics(x);
    lemma_quotient_error(x, 1, 0, RoundingMode::HalfEven);
    assert(fixed_quotient(x, 1, 0, RoundingMode::HalfEven) == div_rounded(x, 1, RoundingMode::HalfEven));
}

/// The exponential's series with nonnegative terms does not fall below its partial sum.
proof fn lemma_exp_steps_above(term: int, sum: int, x: int, n: nat, terms: nat, s: nat)
    requires
        term >= 0,
        x >= 0,
        n >= 1,
    ensures
        exp_steps(term, sum, x, n, terms, s) >= sum,
    decreases terms + 1 - n,
{
    if n <= terms {
        let p = fixed_product(term, x, s);
        crate::constants::lemma_product_nonnegative(term, x, s);
        crate::constants::lemma_quotient_nonnegative(p, n as int);
        let next = div_rounded(p, n as int, RoundingMode::HalfEven);
        if next != 0 && abs(next) > 1 {
            lemma_exp_steps_above(next, sum + next, x, n + 1, terms, s);
        }
    }
}

} // verus!
