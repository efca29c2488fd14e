//! Logarithm, exponential and trigonometric functions of an `EvalFixed`, by argument
//! reduction and power series at the value's own scale.
use vstd::arithmetic::div_mod::*;
use vstd::arithmetic::mul::*;
use vstd::arithmetic::power::*;
use vstd::prelude::*;

use crate::eval::{
    decimal_exponent_of,
    digit_count,
    lemma_digit_count,
    literal_mantissa,
    EvalFixed,
};
use crate::fixed::{
    div_rounded,
    fixed_product,
};
use crate::parse::{
    is_first_point,
    point_free,
    split_point,
    utf8_len,
};
use crate::rounding::{
    lemma_ten_pow_add,
    lemma_ten_pow_pos,
    rescaled,
    ten_pow,
    RoundingMode,
};
use crate::signed::{
    abs,
    sign_of,
    Sign,
};
use crate::text::{
    all_digits,
    decimal_value,
    digit_value,
    is_digit_char,
};
use crate::steps::{
    cos_value,
    sin_value,
    tan_value,
    trig_reduction,
    exp_steps,
    exp_value,
    halving,
    squarings,
    ln_ten_value,
    ln_value,
    pi_value,
    ln_core_value,
    ln_steps,
    reduction_threshold,
    sqrt_reduction,
    arctan_steps,
    arctan_value,
    cos_series_value,
    cos_steps,
    lemma_halve,
    lemma_sqrt_step,
    sin_series_value,
    sin_steps,
};
use crate::uint::BigUintCore;

verus! {

/// Digits beyond the caller's guard digits that iterative evaluation always adds.
pub const EXTRA_GUARD_DIGITS: u32 = 6;

/// Argument reduction brings values within one eighth of the point it expands around.
pub const REDUCTION_DIVISOR: u32 = 8;

/// The fewest series terms ever allowed.
pub const MIN_SERIES_TERMS: usize = 24;

/// The finest scale at which the constants below are read rather than computed.
pub const PRECOMPUTED_CONSTANT_SCALE: u32 = 96;

/// The natural logarithm of ten, to 86 decimals.
pub const LN_10_DECIMAL: &'static str =
    "2.30258509299404568401799145468436420760110148862877297603332790096757260967735248023599";

/// Pi, to 80 decimals.
pub const PI_DECIMAL: &'static str =
    "3.14159265358979323846264338327950288419716939937510582097494459230781640628620899";

/// The number of series terms allowed at a scale.
pub open spec fn series_terms(scale: nat) -> nat {
    let t = ((scale + EXTRA_GUARD_DIGITS + 4) * 4) as nat;
    if t > MIN_SERIES_TERMS {
        t
    } else {
        MIN_SERIES_TERMS as nat
    }
}

/// The series divisors at a scale fit in a `u32`: twice the term count does. Each series
/// divides its terms by small divisors such as `2n + 1`, which are `u32` values; past
/// this bound such a divisor would no longer fit, and the evaluation could not go on as
/// written. It holds for working scales below 536,870,902 digits: with terms counted in
/// the billions at such a scale, no evaluation would finish, so it is the practical limit
/// of the iterative functions and excludes no evaluation that could complete.
pub open spec fn series_fits(scale: nat) -> bool {
    series_terms(scale) < 0x8000_0000
}

/// `a + b`, or `u32::MAX` where the sum does not fit.
pub open spec fn saturating_sum(a: u32, b: u32) -> u32 {
    if a + b > u32::MAX {
        u32::MAX
    } else {
        (a + b) as u32
    }
}

/// The scale of iterative evaluation: the public scale, the guard digits and the extra
/// guard digits, the sum saturating at `u32::MAX`.
pub open spec fn working_scale_of(scale: u32, guard_digits: u32) -> u32 {
    saturating_sum(saturating_sum(scale, guard_digits), EXTRA_GUARD_DIGITS)
}

/// The scale of iterative evaluation for a public scale and guard digits.
pub fn working_scale(scale: u32, guard_digits: u32) -> (r: u32)
    ensures
        r == working_scale_of(scale, guard_digits),
{
    let with_guard = match scale.checked_add(guard_digits) {
        Some(v) => v,
        None => u32::MAX,
    };
    match with_guard.checked_add(EXTRA_GUARD_DIGITS) {
        Some(v) => v,
        None => u32::MAX,
    }
}

/// The number of series terms allowed at a scale.
pub fn series_term_limit(scale: u32) -> (r: usize)
    requires
        series_fits(scale as nat),
    ensures
        r == series_terms(scale as nat),
{
    let t = (scale as usize + EXTRA_GUARD_DIGITS as usize + 4) * 4;
    if t > MIN_SERIES_TERMS {
        t
    } else {
        MIN_SERIES_TERMS
    }
}

/// A power of ten has one digit more than its exponent.
pub(crate) proof fn lemma_digit_count_power(k: nat)
    ensures
        digit_count(ten_pow(k)) == k + 1,
{
    let n = ten_pow(k);
    lemma_ten_pow_pos(k);
    lemma_digit_count(n);
    let c = digit_count(n);
    lemma_ten_pow_pos(c);
    lemma_ten_pow_pos((c - 1) as nat);
    lemma_pow_increases_converse(10, (c - 1) as nat, k);
    if c <= k {
        lemma_pow_increases(10, c, k);
    }
}

/// A power of ten is one or at least ten.
proof fn lemma_ten_pow_one_or_ten(s: nat)
    ensures
        ten_pow(s) == 1 || ten_pow(s) >= 10,
{
    if s == 0 {
        lemma_pow0(10);
    } else {
        lemma_ten_pow_add((s - 1) as nat, 1);
        lemma_ten_pow_pos((s - 1) as nat);
        lemma_pow1(10);
        assert(((s - 1) as nat + 1) == s);
        assert(ten_pow(1) == 10);
        assert(ten_pow(s) == ten_pow((s - 1) as nat) * 10);
    }
}

/// A quotient of a value by a divisor not above it is at least one.
proof fn lemma_quotient_at_least_one(v: int, d: int)
    requires
        d >= 1,
        v >= d,
    ensures
        v / d >= 1,
{
    lemma_fundamental_div_mod(v, d);
    lemma_mod_pos_bound(v, d);
    lemma_div_pos_is_pos(v, d);
    if v / d == 0 {
        lemma_mul_basics(d);
        assert(false);
    }
}

/// Products and quotients of nonnegative mantissas are nonnegative.
proof fn lemma_nonnegative_steps(a: int, b: int, d: int, s: nat)
    requires
        a >= 0,
        b >= 0,
        d > 0,
    ensures
        fixed_product(a, b, s) >= 0,
        div_rounded(a, d, RoundingMode::HalfEven) >= 0,
{
    assert(a * b >= 0) by (nonlinear_arith)
        requires
            a >= 0,
            b >= 0,
    ;
}

/// One over a value of at least one is at most one.
proof fn lemma_inverse_at_most_one(t: int, v: int)
    requires
        t >= 1,
        v >= t,
    ensures
        div_rounded(t * t, v, RoundingMode::HalfEven) <= t,
{
    assert(t * t > 0 && t * t <= v * t) by (nonlinear_arith)
        requires
            t >= 1,
            v >= t,
    ;
    lemma_fundamental_div_mod(t * t, v);
    lemma_mod_pos_bound(t * t, v);
    let q = (t * t) / v;
    let r = (t * t) % v;
    assert(q <= t) by (nonlinear_arith)
        requires
            t * t == v * q + r,
            0 <= r,
            t * t <= v * t,
            v >= 1,
    ;
    if q == t {
        assert(r == 0) by (nonlinear_arith)
            requires
                t * t == v * q + r,
                q == t,
                v >= t,
                t >= 1,
                0 <= r,
        ;
    }
}

/// The square of a mantissa at least one stays at least one.
proof fn lemma_square_at_least_one(r: int, s: nat)
    requires
        r >= ten_pow(s),
    ensures
        fixed_product(r, r, s) >= ten_pow(s),
{
    let t = ten_pow(s) as int;
    lemma_ten_pow_pos(s);
    assert(r * r >= t * t && t * t >= t) by (nonlinear_arith)
        requires
            r >= t,
            t >= 1,
    ;
    if s > 0 {
        assert(s + s != s);
        assert((s + s - s) as nat == s);
        lemma_div_is_ordered(t * t, r * r, t);
        lemma_div_by_multiple(t, t);
        assert(sign_of(r * r) == Sign::Positive);
        assert(abs(r * r) == r * r);
        assert((r * r) / t >= t);
    } else {
        lemma_pow0(10);
    }
}

/// A digit string with a nonzero leading digit is at least ten to its length less one.
proof fn lemma_decimal_value_lower(s: Seq<char>)
    requires
        s.len() >= 1,
        all_digits(s),
        digit_value(s[0]) >= 1,
    ensures
        decimal_value(s) >= ten_pow((s.len() - 1) as nat),
    decreases s.len(),
{
    if s.len() == 1 {
        lemma_pow0(10);
        assert(s.drop_last() =~= Seq::<char>::empty());
        assert(decimal_value(s) == decimal_value(s.drop_last()) * 10 + digit_value(s.last()));
        assert(s.last() == s[0]);
    } else {
        let d = s.drop_last();
        assert(all_digits(d)) by {
            assert forall|i: int| 0 <= i < d.len() implies is_digit_char(#[trigger] d[i]) by {
                assert(d[i] == s[i]);
            }
        }
        assert(d[0] == s[0]);
        lemma_decimal_value_lower(d);
        lemma_ten_pow_add((s.len() - 2) as nat, 1);
        lemma_pow1(10);
        assert(((s.len() - 2) as nat + 1) == (s.len() - 1) as nat);
        let p = ten_pow((s.len() - 2) as nat);
        assert(ten_pow(1) == 10);
        assert(ten_pow((s.len() - 1) as nat) == p * 10);
        assert(decimal_value(s) == decimal_value(d) * 10 + digit_value(s.last()));
        assert((d.len() - 1) as nat == (s.len() - 2) as nat);
        assert(decimal_value(d) >= p);
        assert(decimal_value(d) * 10 >= p * 10) by (nonlinear_arith)
            requires
                decimal_value(d) >= p,
        ;
    }
}

/// A value of at least one unit at scale `from` stays at least one unit at any scale.
proof fn lemma_rescaled_at_least_one(v: int, from: nat, to: nat)
    requires
        v >= ten_pow(from),
    ensures
        rescaled(v, from, to, RoundingMode::HalfEven) >= 1,
{
    lemma_ten_pow_pos(from);
    if from != to {
        if to > from {
            lemma_ten_pow_pos((to - from) as nat);
            assert(v * ten_pow((to - from) as nat) >= 1) by (nonlinear_arith)
                requires
                    v >= 1,
                    ten_pow((to - from) as nat) >= 1,
            ;
        } else {
            let d = ten_pow((from - to) as nat);
            lemma_ten_pow_pos((from - to) as nat);
            lemma_ten_pow_pos(to);
            lemma_ten_pow_add((from - to) as nat, to);
            assert(((from - to) as nat + to) == from);
            assert(d <= ten_pow(from)) by (nonlinear_arith)
                requires
                    ten_pow(from) == d * ten_pow(to),
                    ten_pow(to) >= 1,
                    d >= 1,
            ;
            lemma_quotient_at_least_one(v, d as int);
            assert(sign_of(v) == Sign::Positive);
        }
    }
}

/// A digit string takes one byte per character.
pub proof fn lemma_utf8_len_digits(s: Seq<char>)
    requires
        all_digits(s),
    ensures
        utf8_len(s) == s.len(),
    decreases s.len(),
{
    if s.len() > 0 {
        assert(all_digits(s.drop_first())) by {
            assert forall|i: int| 0 <= i < s.drop_first().len() implies is_digit_char(
                #[trigger] s.drop_first()[i],
            ) by {
                assert(s.drop_first()[i] == s[i + 1]);
            }
        }
        lemma_utf8_len_digits(s.drop_first());
        assert(is_digit_char(s[0]));
    }
}

/// A literal `d.ddd…` with a nonzero leading digit and `k` fractional digits denotes at
/// least one unit at every scale.
proof fn lemma_literal_positive(lit: Seq<char>, k: nat, scale: u32)
    requires
        k < 0x1_0000,
        lit.len() == k + 2,
        lit[1] == '.',
        is_digit_char(lit[0]),
        digit_value(lit[0]) >= 1,
        all_digits(lit.skip(2)),
    ensures
        literal_mantissa(lit, scale) matches Some(v) && v >= 1,
{
    assert(point_free(lit.take(1)));
    assert(is_first_point(lit, 1));
    crate::parse::lemma_first_point_unique(lit, 1);
    let f = lit.skip(2);
    let i = lit.take(1);
    assert(point_free(f));
    assert(split_point(lit) == (i, f, false));
    let joined = i + f;
    assert(all_digits(joined)) by {
        assert forall|j: int| 0 <= j < joined.len() implies is_digit_char(#[trigger] joined[j]) by {
            if j >= 1 {
                assert(joined[j] == f[j - 1]);
            }
        }
    }
    lemma_utf8_len_digits(f);
    assert(joined[0] == lit[0]);
    lemma_decimal_value_lower(joined);
    assert((joined.len() - 1) as nat == f.len());
    lemma_rescaled_at_least_one(decimal_value(joined) as int, f.len(), scale as nat);
    assert(utf8_len(f) <= u32::MAX);
    assert(literal_mantissa(lit, scale) == Some(
        rescaled(decimal_value(joined) as int, f.len(), scale as nat, RoundingMode::HalfEven),
    ));
}

/// Read from their decimals, pi and the logarithm of ten are at least one unit.
pub(crate) proof fn lemma_read_constants(scale: u32)
    requires
        scale <= PRECOMPUTED_CONSTANT_SCALE,
    ensures
        pi_value(scale) >= 1,
        ln_ten_value(scale) >= 1,
{
    reveal_strlit(
        "3.14159265358979323846264338327950288419716939937510582097494459230781640628620899",
    );
    reveal_strlit(
        "2.30258509299404568401799145468436420760110148862877297603332790096757260967735248023599",
    );
    let p = PI_DECIMAL@;
    assert(p.len() == 82);
    assert(all_digits(p.skip(2)));
    lemma_literal_positive(p, 80, scale);
    let l = LN_10_DECIMAL@;
    assert(l.len() == 88);
    assert(all_digits(l.skip(2)));
    lemma_literal_positive(l, 86, scale);
}

impl EvalFixed {
    /// The natural logarithm of a value near one: repeated square roots bring it within
    /// an eighth of one, a series in `(x - 1) / (x + 1)` evaluates it, and each square
    /// root is undone by a doubling. `None` for a value that is not positive.
    pub fn ln_core_reduced(&self) -> (r: Option<Self>)
        requires
            series_fits(self@.1 as nat),
        ensures
            r is Some <==> self@.0 > 0,
            r matches Some(v) ==> v@ == (ln_core_value(self@.0, self@.1 as nat), self@.1),
            self@.0 == ten_pow(self@.1 as nat) ==> (r matches Some(v) && v@.0 == 0),
    {
        proof {
            lemma_ten_pow_pos(self@.1 as nat);
        }
        if self.sign() != Sign::Positive {
            return None;
        }
        let scale = self.scale();
        let ghost at_one = self@.0 == ten_pow(scale as nat);
        let ghost t = ten_pow(scale as nat) as int;
        let one = Self::one(scale);
        let threshold = one.div_small(REDUCTION_DIVISOR, RoundingMode::HalfEven);
        let lower = one.sub(&threshold);
        let upper = one.add(&threshold);
        proof {
            lemma_ten_pow_pos(scale as nat);
            lemma_ten_pow_one_or_ten(scale as nat);
            lemma_fundamental_div_mod(t, 8);
        }
        let ghost thr = threshold@.0;
        let ghost reduction = sqrt_reduction(self@.0, t, thr, 0);
        let mut reduced = self.clone();
        let mut doublings = BigUintCore::zero();
        while reduced.compare_value(&lower) == -1 || reduced.compare_value(&upper) == 1
            invariant
                sqrt_reduction(reduced@.0, t, thr, doublings@) == reduction,
                reduced@.1 == scale,
                reduced@.0 > 0,
                t == ten_pow(scale as nat),
                t >= 1,
                one@ == (t, scale),
                lower@ == (t - thr, scale),
                upper@ == (t + thr, scale),
                thr >= 0,
                t == 1 || thr >= 1,
                at_one == (self@.0 == t),
                at_one ==> reduced@.0 == t && doublings@ == 0,
            decreases (if reduced@.0 >= t {
                reduced@.0 - t
            } else {
                t - reduced@.0
            }),
        {
            let next = match reduced.sqrt() {
                Some(v) => v,
                None => {
                    return None;
                },
            };
            proof {
                lemma_sqrt_step(reduced@.0 as nat, t as nat);
            }
            reduced = next;
            doublings = doublings.add_small(1);
        }
        let ghost reduced_count = doublings@;
        proof {
            assert(thr == reduction_threshold(scale as nat));
            assert(reduction == (reduced@.0, reduced_count));
        }
        let numerator = reduced.sub(&one);
        let denominator = reduced.add(&one);
        let z = match numerator.div(&denominator, RoundingMode::HalfEven) {
            Some(v) => v,
            None => {
                return None;
            },
        };
        proof {
            if at_one {
                lemma_mul_basics(t);
            }
        }
        let z2 = z.square();
        let mut power = z.clone();
        let mut sum = power.clone();
        let limit = self.convergence_limit();
        let terms = series_term_limit(scale);
        let ghost series_sum = ln_steps(z@.0, z@.0, z2@.0, 1, terms as nat, scale as nat);
        let mut n: usize = 1;
        while n <= terms
            invariant_except_break
                ln_steps(power@.0, sum@.0, z2@.0, n as nat, terms as nat, scale as nat)
                    == series_sum,
            invariant
                power@.1 == scale,
                sum@.1 == scale,
                z2@.1 == scale,
                limit@ == (1int, scale),
                terms == series_terms(scale as nat),
                terms < 0x8000_0000,
                1 <= n <= terms + 1,
                at_one ==> power@.0 == 0 && sum@.0 == 0,
            ensures
                sum@.1 == scale,
                sum@.0 == series_sum,
                at_one ==> sum@.0 == 0,
            decreases terms + 1 - n,
        {
            proof {
                if at_one {
                    lemma_mul_basics(z2@.0);
                }
            }
            power = power.mul(&z2);
            let addend = power.div_small((2 * n + 1) as u32, RoundingMode::HalfEven);
            if addend.is_zero() {
                break;
            }
            sum = sum.add(&addend);
            if addend.is_within(&limit) {
                break;
            }
            n = n + 1;
        }
        let mut result = sum.mul_small(2);
        proof {
            lemma_pow0(2);
        }
        while !doublings.is_zero()
            invariant
                result@.1 == scale,
                result@.0 * pow(2, doublings@) == series_sum * 2 * pow(2, reduced_count),
                at_one ==> doublings@ == 0 && result@.0 == 0,
            decreases doublings@,
        {
            proof {
                let d = doublings@;
                lemma_pow_adds(2, 1, (d - 1) as nat);
                lemma_pow1(2);
                assert(result@.0 * pow(2, d) == result@.0 * 2 * pow(2, (d - 1) as nat)) by (nonlinear_arith)
                    requires
                        pow(2, d) == 2 * pow(2, (d - 1) as nat),
                ;
            }
            result = result.mul_small(2);
            doublings = doublings.sub(&BigUintCore::one());
        }
        proof {
            lemma_pow0(2);
            lemma_mul_basics(result@.0);
        }
        Some(result)
    }

    /// The natural logarithm: the value is written as `x * 10^e` with `x` in `[1, 10)`,
    /// and `ln x + e ln 10` is returned. `None` for a value that is not positive, and where
    /// the decimal exponent exceeds `u32::MAX`.
    pub fn ln(&self) -> (r: Option<Self>)
        requires
            series_fits(self@.1 as nat),
        ensures
            r is None <==> (self@.0 <= 0 || decimal_exponent_of(self@.0, self@.1 as nat)
                > u32::MAX),
            r matches Some(v) ==> v@ == (ln_value(self@.0, self@.1), self@.1),
            self@.0 == 10 * ten_pow(self@.1 as nat) ==> r is Some && ln_value(self@.0, self@.1)
                == ln_ten_value(self@.1),
    {
        proof {
            lemma_ten_pow_pos(self@.1 as nat);
        }
        if self.sign() != Sign::Positive {
            return None;
        }
        proof {
            lemma_digit_count(abs(self@.0));
            if self@.0 == 10 * ten_pow(self@.1 as nat) {
                lemma_ten_pow_add(self@.1 as nat, 1);
                lemma_pow1(10);
                assert(ten_pow(1) == 10);
                lemma_digit_count_power((self@.1 + 1) as nat);
                let t = ten_pow(self@.1 as nat) as int;
                assert(10 * t == t * 10 + 0) by (nonlinear_arith);
                lemma_fundamental_div_mod_converse(10 * t, 10, t, 0);
                lemma_ten_pow_pos(self@.1 as nat);
            }
        }
        let exponent = match self.decimal_exponent() {
            Some(e) => e,
            None => {
                return None;
            },
        };
        if exponent == 0 {
            return self.ln_core_reduced();
        }
        let normalized = match self.shift_decimal_exponent(exponent) {
            Some(v) => v,
            None => {
                return None;
            },
        };
        proof {
            let m = self@.0;
            let c = digit_count(abs(m));
            if exponent > 0 {
                let e = exponent as nat;
                lemma_pow_increases(10, e, (c - 1) as nat);
                lemma_ten_pow_pos(e);
                lemma_ten_pow_pos((c - 1) as nat);
                lemma_quotient_at_least_one(m, ten_pow(e) as int);
                assert(sign_of(m) == Sign::Positive);
            } else {
                lemma_ten_pow_pos((-exponent) as nat);
                assert(m * ten_pow((-exponent) as nat) > 0) by (nonlinear_arith)
                    requires
                        m > 0,
                        ten_pow((-exponent) as nat) >= 1,
                ;
            }
        }
        let normalized_ln = match normalized.ln_core_reduced() {
            Some(v) => v,
            None => {
                return None;
            },
        };
        let ln_ten = match Self::ln_ten_constant(self.scale()) {
            Some(v) => v,
            None => {
                return None;
            },
        };
        Some(normalized_ln.add(&ln_ten.mul_small(exponent)))
    }

    /// The natural logarithm of ten at a scale: read from its decimals up to the precomputed
    /// scale, computed beyond it.
    pub fn ln_ten_constant(scale: u32) -> (r: Option<Self>)
        requires
            series_fits(scale as nat),
        ensures
            r matches Some(v) && v@ == (ln_ten_value(scale), scale),
            scale <= PRECOMPUTED_CONSTANT_SCALE ==> ln_ten_value(scale) >= 1,
    {
        if scale <= PRECOMPUTED_CONSTANT_SCALE {
            proof {
                reveal_strlit(
                    "2.30258509299404568401799145468436420760110148862877297603332790096757260967735248023599",
                );
                let s = LN_10_DECIMAL@;
                assert(s.len() == 88);
                assert(all_digits(s.skip(2)));
                lemma_literal_positive(s, 86, scale);
            }
            Self::from_decimal_literal(scale, LN_10_DECIMAL)
        } else {
            let ten = Self::from_i64(scale, 10);
            proof {
                lemma_ten_pow_pos(scale as nat);
            }
            ten.ln_core_reduced()
        }
    }

    /// Pi at a scale: read from its decimals up to the precomputed scale, computed beyond
    /// it. Read, it is at least one unit.
    pub fn pi_constant(scale: u32) -> (r: Option<Self>)
        requires
            series_fits(scale as nat),
        ensures
            r matches Some(v) && v@ == (pi_value(scale), scale),
            scale <= PRECOMPUTED_CONSTANT_SCALE ==> pi_value(scale) >= 1,
    {
        if scale <= PRECOMPUTED_CONSTANT_SCALE {
            proof {
                reveal_strlit(
                    "3.14159265358979323846264338327950288419716939937510582097494459230781640628620899",
                );
                let s = PI_DECIMAL@;
                assert(s.len() == 82);
                assert(all_digits(s.skip(2)));
                lemma_literal_positive(s, 80, scale);
            }
            Self::from_decimal_literal(scale, PI_DECIMAL)
        } else {
            Self::pi(scale)
        }
    }

    /// The exponential: the magnitude is halved until at most an eighth, the series summed,
    /// and the sum squared once per halving; a negative value gives one over the result.
    pub fn exp(&self) -> (r: Option<Self>)
        requires
            series_fits(self@.1 as nat),
        ensures
            r matches Some(v) && v@ == (exp_value(self@.0, self@.1 as nat), self@.1),
            exp_value(self@.0, self@.1 as nat) >= 0,
            self@.0 >= 0 ==> exp_value(self@.0, self@.1 as nat) >= ten_pow(self@.1 as nat),
            self@.0 <= 0 ==> exp_value(self@.0, self@.1 as nat) <= ten_pow(self@.1 as nat),
    {
        let scale = self.scale();
        let ghost t = ten_pow(scale as nat) as int;
        let ghost at_zero = self@.0 == 0;
        proof {
            lemma_ten_pow_pos(scale as nat);
        }
        let negative = self.sign() == Sign::Negative;
        let mut reduced = if negative {
            self.abs()
        } else {
            self.clone()
        };
        let one = Self::one(scale);
        let threshold = one.div_small(REDUCTION_DIVISOR, RoundingMode::HalfEven);
        proof {
            lemma_nonnegative_steps(t, 0, 8, 0);
        }
        let ghost halved = halving(abs(self@.0) as int, threshold@.0, 0);
        let mut halvings = BigUintCore::zero();
        while reduced.compare_value(&threshold) == 1
            invariant
                halving(reduced@.0, threshold@.0, halvings@) == halved,
                reduced@.1 == scale,
                reduced@.0 >= 0,
                threshold@.1 == scale,
                threshold@.0 >= 0,
                at_zero == (self@.0 == 0),
                at_zero ==> reduced@.0 == 0 && halvings@ == 0,
            decreases reduced@.0,
        {
            proof {
                lemma_halve(reduced@.0);
            }
            reduced = reduced.div_small(2, RoundingMode::HalfEven);
            halvings = halvings.add_small(1);
        }
        let ghost halving_count = halvings@;
        proof {
            assert(threshold@.0 == reduction_threshold(scale as nat));
            assert(halved == (reduced@.0, halving_count));
        }
        let mut term = Self::one(scale);
        let mut sum = term.clone();
        let limit = self.convergence_limit();
        let terms = series_term_limit(scale);
        let ghost series_sum = exp_steps(t, t, reduced@.0, 1, terms as nat, scale as nat);
        let mut n: usize = 1;
        while n <= terms
            invariant_except_break
                exp_steps(term@.0, sum@.0, reduced@.0, n as nat, terms as nat, scale as nat)
                    == series_sum,
            invariant
                reduced@.1 == scale,
                reduced@.0 >= 0,
                term@.1 == scale,
                term@.0 >= 0,
                sum@.1 == scale,
                sum@.0 >= t,
                limit@ == (1int, scale),
                t == ten_pow(scale as nat),
                terms == series_terms(scale as nat),
                terms < 0x8000_0000,
                1 <= n <= terms + 1,
                at_zero ==> reduced@.0 == 0 && sum@.0 == t,
            ensures
                sum@.1 == scale,
                sum@.0 >= t,
                sum@.0 == series_sum,
                at_zero ==> sum@.0 == t,
            decreases terms + 1 - n,
        {
            proof {
                lemma_nonnegative_steps(term@.0, reduced@.0, 1, scale as nat);
                if at_zero {
                    lemma_mul_basics(term@.0);
                }
            }
            term = term.mul(&reduced);
            proof {
                lemma_nonnegative_steps(term@.0, 0, n as int, 0);
            }
            term = term.div_small(n as u32, RoundingMode::HalfEven);
            if term.is_zero() {
                break;
            }
            sum = sum.add(&term);
            if term.is_within(&limit) {
                break;
            }
            n = n + 1;
        }
        let mut result = sum;
        while !halvings.is_zero()
            invariant
                squarings(result@.0, halvings@, scale as nat) == squarings(
                    series_sum,
                    halving_count,
                    scale as nat,
                ),
                result@.1 == scale,
                result@.0 >= t,
                t == ten_pow(scale as nat),
                at_zero ==> halvings@ == 0 && result@.0 == t,
            decreases halvings@,
        {
            proof {
                lemma_square_at_least_one(result@.0, scale as nat);
            }
            result = result.mul(&result);
            halvings = halvings.sub(&BigUintCore::one());
        }
        if negative {
            proof {
                assert(t * t >= 0) by (nonlinear_arith)
                    requires
                        t >= 1,
                ;
                lemma_nonnegative_steps(t * t, 0, result@.0, 0);
                lemma_inverse_at_most_one(t, result@.0);
            }
            one.div(&result, RoundingMode::HalfEven)
        } else {
            Some(result)
        }
    }
}

impl EvalFixed {
    /// The arctangent of `1 / reciprocal` by its alternating series.
    pub fn arctan_recip(scale: u32, reciprocal: u32) -> (r: Option<Self>)
        requires
            reciprocal != 0,
            series_fits(scale as nat),
        ensures
            r matches Some(v) && v@ == (arctan_value(scale as nat, reciprocal as nat), scale),
    {
        let ghost target = arctan_value(scale as nat, reciprocal as nat);
        let one = Self::one(scale);
        let z = one.div_small(reciprocal, RoundingMode::HalfEven);
        let z2 = z.square();
        let mut power = z.clone();
        let mut sum = power.clone();
        let limit = Self::ulp(scale);
        let terms = series_term_limit(scale);
        let mut n: usize = 1;
        while n <= terms
            invariant_except_break
                arctan_steps(power@.0, sum@.0, z2@.0, n as nat, terms as nat, scale as nat)
                    == target,
            invariant
                power@.1 == scale,
                sum@.1 == scale,
                z2@.1 == scale,
                limit@ == (1int, scale),
                terms == series_terms(scale as nat),
                terms < 0x8000_0000,
                1 <= n <= terms + 1,
            ensures
                sum@.1 == scale,
                sum@.0 == target,
            decreases terms + 1 - n,
        {
            power = power.mul(&z2);
            let addend = power.div_small((2 * n + 1) as u32, RoundingMode::HalfEven);
            if addend.is_zero() {
                break;
            }
            sum = if n % 2 == 1 {
                sum.sub(&addend)
            } else {
                sum.add(&addend)
            };
            if addend.abs().is_within(&limit) {
                break;
            }
            n = n + 1;
        }
        Some(sum)
    }

    /// The sine series `x - x^3/3! + x^5/5! - ...`, each term rounded at the value's scale.
    pub fn sin_series(&self) -> (r: Self)
        requires
            series_fits(self@.1 as nat),
        ensures
            r@ == (sin_series_value(self@.0, self@.1 as nat), self@.1),
    {
        let scale = self.scale();
        let ghost target = sin_series_value(self@.0, scale as nat);
        let x2 = self.square();
        let mut term = self.clone();
        let mut sum = term.clone();
        let limit = self.convergence_limit();
        let terms = series_term_limit(scale);
        let mut n: usize = 1;
        while n <= terms
            invariant_except_break
                sin_steps(term@.0, sum@.0, x2@.0, n as nat, terms as nat, scale as nat) == target,
            invariant
                term@.1 == scale,
                sum@.1 == scale,
                x2@.1 == scale,
                limit@ == (1int, scale),
                terms == series_terms(scale as nat),
                terms < 0x8000_0000,
                1 <= n <= terms + 1,
            ensures
                sum@.1 == scale,
                sum@.0 == target,
            decreases terms + 1 - n,
        {
            term = term.mul(&x2).negated();
            term = term.div_small((2 * n) as u32, RoundingMode::HalfEven);
            term = term.div_small((2 * n + 1) as u32, RoundingMode::HalfEven);
            if term.is_zero() {
                break;
            }
            sum = sum.add(&term);
            if term.abs().is_within(&limit) {
                break;
            }
            n = n + 1;
        }
        sum
    }

    /// The cosine series `1 - x^2/2! + x^4/4! - ...`, each term rounded at the value's scale.
    pub fn cos_series(&self) -> (r: Self)
        requires
            series_fits(self@.1 as nat),
        ensures
            r@ == (cos_series_value(self@.0, self@.1 as nat), self@.1),
    {
        let scale = self.scale();
        let ghost target = cos_series_value(self@.0, scale as nat);
        let x2 = self.square();
        let mut term = Self::one(scale);
        let mut sum = term.clone();
        let limit = self.convergence_limit();
        let terms = series_term_limit(scale);
        let mut n: usize = 1;
        while n <= terms
            invariant_except_break
                cos_steps(term@.0, sum@.0, x2@.0, n as nat, terms as nat, scale as nat) == target,
            invariant
                term@.1 == scale,
                sum@.1 == scale,
                x2@.1 == scale,
                limit@ == (1int, scale),
                terms == series_terms(scale as nat),
                terms < 0x8000_0000,
                1 <= n <= terms + 1,
            ensures
                sum@.1 == scale,
                sum@.0 == target,
            decreases terms + 1 - n,
        {
            term = term.mul(&x2).negated();
            term = term.div_small((2 * n - 1) as u32, RoundingMode::HalfEven);
            term = term.div_small((2 * n) as u32, RoundingMode::HalfEven);
            if term.is_zero() {
                break;
            }
            sum = sum.add(&term);
            if term.abs().is_within(&limit) {
                break;
            }
            n = n + 1;
        }
        sum
    }

    /// The value less the nearest whole number of turns, folded into `[-pi/2, pi/2]`, with
    /// the signs that the sine and the cosine take from the fold. `None` where pi at the
    /// value's scale is zero.
    pub fn reduce_for_trig(&self) -> (r: Option<(Self, i8, i8)>)
        requires
            series_fits(self@.1 as nat),
        ensures
            r is Some <==> pi_value(self@.1) != 0,
            r matches Some(t) ==> t.0@.1 == self@.1 && (t.0@.0, t.1 as int, t.2 as int)
                == trig_reduction(self@.0, self@.1),
    {
        let pi = match Self::pi_constant(self.scale()) {
            Some(v) => v,
            None => {
                return None;
            },
        };
        let tau = pi.mul_small(2);
        let quarter_turn = pi.div_small(2, RoundingMode::HalfEven);
        let turns = match self.div_to_integer(&tau, RoundingMode::HalfEven) {
            Some(t) => t,
            None => {
                return None;
            },
        };
        let mut reduced = self.sub(&tau.mul_int(&turns));
        let mut sin_sign: i8 = 1;
        let mut cos_sign: i8 = 1;
        if reduced.compare_value(&quarter_turn) == 1 {
            reduced = pi.sub(&reduced);
            cos_sign = -1;
        } else {
            let neg_quarter = quarter_turn.negated();
            if reduced.compare_value(&neg_quarter) == -1 {
                reduced = pi.add(&reduced);
                sin_sign = -1;
                cos_sign = -1;
            }
        }
        Some((reduced, sin_sign, cos_sign))
    }

    /// The sine. `None` where pi at the value's scale is zero.
    pub fn sin(&self) -> (r: Option<Self>)
        requires
            series_fits(self@.1 as nat),
        ensures
            r is Some <==> pi_value(self@.1) != 0,
            r matches Some(v) ==> v@ == (sin_value(self@.0, self@.1), self@.1),
    {
        let (reduced, sin_sign, _) = match self.reduce_for_trig() {
            Some(t) => t,
            None => {
                return None;
            },
        };
        let mut result = reduced.sin_series();
        if sin_sign < 0 {
            result = result.negated();
        }
        Some(result)
    }

    /// The cosine. `None` where pi at the value's scale is zero.
    pub fn cos(&self) -> (r: Option<Self>)
        requires
            series_fits(self@.1 as nat),
        ensures
            r is Some <==> pi_value(self@.1) != 0,
            r matches Some(v) ==> v@ == (cos_value(self@.0, self@.1), self@.1),
    {
        let (reduced, _, cos_sign) = match self.reduce_for_trig() {
            Some(t) => t,
            None => {
                return None;
            },
        };
        let mut result = reduced.cos_series();
        if cos_sign < 0 {
            result = result.negated();
        }
        Some(result)
    }

    /// The tangent. `None` where the folded value lies within half a unit of scale
    /// `target_scale` of a quarter turn, where the cosine is that small, and where pi at
    /// the value's scale is zero.
    pub fn tan(&self, target_scale: u32) -> (r: Option<Self>)
        requires
            series_fits(self@.1 as nat),
        ensures
            r is Some <==> tan_value(self@.0, self@.1, target_scale) is Some,
            r matches Some(v) ==> tan_value(self@.0, self@.1, target_scale) == Some(v@.0)
                && v@.1 == self@.1,
    {
        let scale = self.scale();
        let (reduced, sin_sign, cos_sign) = match self.reduce_for_trig() {
            Some(t) => t,
            None => {
                return None;
            },
        };
        let quarter_turn = match Self::pi_constant(scale) {
            Some(v) => v.div_small(2, RoundingMode::HalfEven),
            None => {
                return None;
            },
        };
        let pole_distance = reduced.abs().sub(&quarter_turn).abs();
        if pole_distance.is_within(&Self::half_target_ulp(scale, target_scale)) {
            return None;
        }
        let mut sine = reduced.sin_series();
        if sin_sign < 0 {
            sine = sine.negated();
        }
        let mut cosine = reduced.cos_series();
        if cos_sign < 0 {
            cosine = cosine.negated();
        }
        if cosine.abs().is_within(&Self::half_target_ulp(scale, target_scale)) {
            return None;
        }
        sine.div(&cosine, RoundingMode::HalfEven)
    }

    /// Pi by Machin's formula, `16 atan(1/5) - 4 atan(1/239)`.
    pub fn pi(scale: u32) -> (r: Option<Self>)
        requires
            series_fits(scale as nat),
        ensures
            r matches Some(v) && v@ == (
                16 * arctan_value(scale as nat, 5) - 4 * arctan_value(scale as nat, 239),
                scale,
            ),
    {
        let atan_fifth = match Self::arctan_recip(scale, 5) {
            Some(v) => v,
            None => {
                return None;
            },
        };
        let atan_two_thirty_nine = match Self::arctan_recip(scale, 239) {
            Some(v) => v,
            None => {
                return None;
            },
        };
        Some(atan_fifth.mul_small(16).sub(&atan_two_thirty_nine.mul_small(4)))
    }
}

} // verus!
