//! Logarithms, the exponential and trigonometric functions of a `BigFixed`, evaluated at a
//! working scale widened by guard digits and rounded once back to the public scale.
use vstd::arithmetic::div_mod::*;
use vstd::arithmetic::mul::*;
use vstd::prelude::*;

use crate::constants::lemma_constants_positive;
use crate::eval::{decimal_exponent_of, EvalFixed};
use crate::fixed::{fixed_quotient, BigFixed};
use crate::rounding::{
    lemma_ten_pow_pos,
    rescaled,
    rounded_div,
    ten_pow,
    MathContext,
    RoundingMode,
};
use crate::series::{series_fits, working_scale, working_scale_of};
use crate::steps::{cos_value, exp_value, ln_ten_value, ln_value, pi_value, sin_value, tan_value};
use crate::signed::{lemma_sign_product, Sign};

verus! {

/// The mantissa at the working scale of a value with mantissa `m` at scale `scale`.
pub open spec fn working_mantissa(m: int, scale: u32, guard_digits: u32) -> int {
    rescaled(
        m,
        scale as nat,
        working_scale_of(scale, guard_digits) as nat,
        RoundingMode::HalfEven,
    )
}

/// Whether the logarithm of the value with mantissa `m` at scale `scale` is defined at the
/// working scale: the value is positive and its decimal exponent fits in a `u32`.
pub open spec fn ln_defined(m: int, scale: u32, guard_digits: u32) -> bool {
    m > 0 && decimal_exponent_of(
        working_mantissa(m, scale, guard_digits),
        working_scale_of(scale, guard_digits) as nat,
    ) <= u32::MAX
}

/// The working scale is not below the public one, and widening keeps the sign.
proof fn lemma_working_sign(m: int, scale: u32, guard_digits: u32)
    ensures
        working_scale_of(scale, guard_digits) >= scale,
        (working_mantissa(m, scale, guard_digits) > 0) == (m > 0),
        (working_mantissa(m, scale, guard_digits) == 0) == (m == 0),
{
    let w = working_scale_of(scale, guard_digits);
    if w > scale {
        lemma_ten_pow_pos((w - scale) as nat);
        lemma_sign_product(m, ten_pow((w - scale) as nat) as int);
    }
}

/// Rounding a quotient by a positive divisor keeps the order of nonnegative numerators.
proof fn lemma_rounded_div_monotone(a: nat, b: nat, d: nat, mode: RoundingMode)
    requires
        a <= b,
        d > 0,
    ensures
        rounded_div(a, d, Sign::Positive, mode) <= rounded_div(b, d, Sign::Positive, mode),
{
    lemma_div_is_ordered(a as int, b as int, d as int);
    lemma_fundamental_div_mod(a as int, d as int);
    lemma_fundamental_div_mod(b as int, d as int);
    lemma_mod_pos_bound(a as int, d as int);
    lemma_mod_pos_bound(b as int, d as int);
    if a / d == b / d {
        assert(a % d <= b % d);
    }
}

/// Bringing nonnegative values to a coarser scale keeps their order.
proof fn lemma_rescale_down_monotone(a: int, b: int, from: nat, to: nat, mode: RoundingMode)
    requires
        0 <= a <= b,
        to <= from,
    ensures
        0 <= rescaled(a, from, to, mode) <= rescaled(b, from, to, mode),
{
    if from != to && a != 0 {
        lemma_ten_pow_pos((from - to) as nat);
        lemma_rounded_div_monotone(a as nat, b as nat, ten_pow((from - to) as nat), mode);
    }
}

/// One at a finer scale is one at a coarser scale.
proof fn lemma_rescale_one(from: nat, to: nat, mode: RoundingMode)
    requires
        to <= from,
    ensures
        rescaled(ten_pow(from) as int, from, to, mode) == ten_pow(to),
{
    lemma_ten_pow_pos(from);
    lemma_ten_pow_pos(to);
    if from != to {
        let k = (from - to) as nat;
        lemma_ten_pow_pos(k);
        crate::rounding::lemma_ten_pow_add(k, to);
        assert((k + to) as nat == from);
        lemma_fundamental_div_mod_converse(
            ten_pow(from) as int,
            ten_pow(k) as int,
            ten_pow(to) as int,
            0,
        );
    }
}

impl<const SCALE: u32> BigFixed<SCALE> {
    /// The natural logarithm, evaluated with the context's guard digits and rounded once to
    /// the public scale under its mode. `None` for a value that is not positive (and where
    /// the decimal exponent at the working scale exceeds `u32::MAX`).
    pub fn checked_ln_with_context(&self, context: MathContext) -> (r: Option<Self>)
        requires
            series_fits(working_scale_of(SCALE, context.guard_digits) as nat),
        ensures
            r is Some <==> ln_defined(self@, SCALE, context.guard_digits),
            r matches Some(v) ==> v@ == rescaled(
                ln_value(
                    working_mantissa(self@, SCALE, context.guard_digits),
                    working_scale_of(SCALE, context.guard_digits),
                ),
                working_scale_of(SCALE, context.guard_digits) as nat,
                SCALE as nat,
                context.rounding,
            ),
    {
        let value = EvalFixed::from_bigfixed(self, working_scale(SCALE, context.guard_digits));
        proof {
            lemma_working_sign(self@, SCALE, context.guard_digits);
        }
        match value.ln() {
            Some(result) => Some(result.to_bigfixed(context)),
            None => None,
        }
    }

    /// The natural logarithm under the default context.
    pub fn checked_ln(&self) -> (r: Option<Self>)
        requires
            series_fits(working_scale_of(SCALE, 8) as nat),
        ensures
            r is Some <==> ln_defined(self@, SCALE, 8),
            r matches Some(v) ==> v@ == rescaled(
                ln_value(working_mantissa(self@, SCALE, 8), working_scale_of(SCALE, 8)),
                working_scale_of(SCALE, 8) as nat,
                SCALE as nat,
                RoundingMode::HalfEven,
            ),
    {
        self.checked_ln_with_context(MathContext::default())
    }

    /// The natural logarithm under the default context; the value must be positive.
    pub fn ln(&self) -> (r: Self)
        requires
            series_fits(working_scale_of(SCALE, 8) as nat),
            ln_defined(self@, SCALE, 8),
        ensures
            r@ == rescaled(
                ln_value(working_mantissa(self@, SCALE, 8), working_scale_of(SCALE, 8)),
                working_scale_of(SCALE, 8) as nat,
                SCALE as nat,
                RoundingMode::HalfEven,
            ),
    {
        self.checked_ln().unwrap()
    }

    /// The exponential, evaluated with the context's guard digits and rounded once to the
    /// public scale under its mode: never negative, at least one for a value not below
    /// zero, at most one for a value not above zero.
    pub fn checked_exp_with_context(&self, context: MathContext) -> (r: Option<Self>)
        requires
            series_fits(working_scale_of(SCALE, context.guard_digits) as nat),
        ensures
            r matches Some(v) && v@ == rescaled(
                exp_value(
                    working_mantissa(self@, SCALE, context.guard_digits),
                    working_scale_of(SCALE, context.guard_digits) as nat,
                ),
                working_scale_of(SCALE, context.guard_digits) as nat,
                SCALE as nat,
                context.rounding,
            ),
            r matches Some(v) && v@ >= 0,
            self@ >= 0 ==> (r matches Some(v) && v@ >= ten_pow(SCALE as nat)),
            self@ <= 0 ==> (r matches Some(v) && v@ <= ten_pow(SCALE as nat)),
    {
        let work_scale = working_scale(SCALE, context.guard_digits);
        let value = EvalFixed::from_bigfixed(self, work_scale);
        proof {
            lemma_working_sign(self@, SCALE, context.guard_digits);
        }
        match value.exp() {
            Some(result) => {
                proof {
                    let w = work_scale as nat;
                    let v = result@.0;
                    lemma_rescale_one(w, SCALE as nat, context.rounding);
                    lemma_rescale_down_monotone(0, v, w, SCALE as nat, context.rounding);
                    if self@ >= 0 {
                        lemma_rescale_down_monotone(
                            ten_pow(w) as int,
                            v,
                            w,
                            SCALE as nat,
                            context.rounding,
                        );
                    }
                    if self@ <= 0 {
                        lemma_rescale_down_monotone(
                            v,
                            ten_pow(w) as int,
                            w,
                            SCALE as nat,
                            context.rounding,
                        );
                    }
                }
                Some(result.to_bigfixed(context))
            },
            None => None,
        }
    }

    /// The exponential under the default context.
    pub fn checked_exp(&self) -> (r: Option<Self>)
        requires
            series_fits(working_scale_of(SCALE, 8) as nat),
        ensures
            r matches Some(v) && v@ == rescaled(
                exp_value(working_mantissa(self@, SCALE, 8), working_scale_of(SCALE, 8) as nat),
                working_scale_of(SCALE, 8) as nat,
                SCALE as nat,
                RoundingMode::HalfEven,
            ),
            r matches Some(v) && v@ >= 0,
            self@ >= 0 ==> (r matches Some(v) && v@ >= ten_pow(SCALE as nat)),
            self@ <= 0 ==> (r matches Some(v) && v@ <= ten_pow(SCALE as nat)),
    {
        self.checked_exp_with_context(MathContext::default())
    }

    /// The exponential under the default context.
    pub fn exp(&self) -> (r: Self)
        requires
            series_fits(working_scale_of(SCALE, 8) as nat),
        ensures
            r@ == rescaled(
                exp_value(working_mantissa(self@, SCALE, 8), working_scale_of(SCALE, 8) as nat),
                working_scale_of(SCALE, 8) as nat,
                SCALE as nat,
                RoundingMode::HalfEven,
            ),
            r@ >= 0,
            self@ >= 0 ==> r@ >= ten_pow(SCALE as nat),
            self@ <= 0 ==> r@ <= ten_pow(SCALE as nat),
    {
        self.checked_exp().unwrap()
    }

    /// The sine, evaluated with the context's guard digits and rounded once to the public
    /// scale under its mode. It is always defined: pi is at least one unit at every scale.
    pub fn checked_sin_with_context(&self, context: MathContext) -> (r: Option<Self>)
        requires
            series_fits(working_scale_of(SCALE, context.guard_digits) as nat),
        ensures
            r matches Some(v) && v@ == rescaled(
                sin_value(
                    working_mantissa(self@, SCALE, context.guard_digits),
                    working_scale_of(SCALE, context.guard_digits),
                ),
                working_scale_of(SCALE, context.guard_digits) as nat,
                SCALE as nat,
                context.rounding,
            ),
    {
        let value = EvalFixed::from_bigfixed(self, working_scale(SCALE, context.guard_digits));
        proof {
            lemma_constants_positive(working_scale_of(SCALE, context.guard_digits));
        }
        match value.sin() {
            Some(result) => Some(result.to_bigfixed(context)),
            None => None,
        }
    }

    /// The sine under the default context.
    pub fn checked_sin(&self) -> (r: Option<Self>)
        requires
            series_fits(working_scale_of(SCALE, 8) as nat),
        ensures
            r matches Some(v) && v@ == rescaled(
                sin_value(working_mantissa(self@, SCALE, 8), working_scale_of(SCALE, 8)),
                working_scale_of(SCALE, 8) as nat,
                SCALE as nat,
                RoundingMode::HalfEven,
            ),
    {
        self.checked_sin_with_context(MathContext::default())
    }

    /// The sine under the default context.
    pub fn sin(&self) -> (r: Self)
        requires
            series_fits(working_scale_of(SCALE, 8) as nat),
        ensures
            r@ == rescaled(
                sin_value(working_mantissa(self@, SCALE, 8), working_scale_of(SCALE, 8)),
                working_scale_of(SCALE, 8) as nat,
                SCALE as nat,
                RoundingMode::HalfEven,
            ),
    {
        self.checked_sin().unwrap()
    }

    /// The cosine, evaluated with the context's guard digits and rounded once to the public
    /// scale under its mode. It is always defined: pi is at least one unit at every scale.
    pub fn checked_cos_with_context(&self, context: MathContext) -> (r: Option<Self>)
        requires
            series_fits(working_scale_of(SCALE, context.guard_digits) as nat),
        ensures
            r matches Some(v) && v@ == rescaled(
                cos_value(
                    working_mantissa(self@, SCALE, context.guard_digits),
                    working_scale_of(SCALE, context.guard_digits),
                ),
                working_scale_of(SCALE, context.guard_digits) as nat,
                SCALE as nat,
                context.rounding,
            ),
    {
        let value = EvalFixed::from_bigfixed(self, working_scale(SCALE, context.guard_digits));
        proof {
            lemma_constants_positive(working_scale_of(SCALE, context.guard_digits));
        }
        match value.cos() {
            Some(result) => Some(result.to_bigfixed(context)),
            None => None,
        }
    }

    /// The cosine under the default context.
    pub fn checked_cos(&self) -> (r: Option<Self>)
        requires
            series_fits(working_scale_of(SCALE, 8) as nat),
        ensures
            r matches Some(v) && v@ == rescaled(
                cos_value(working_mantissa(self@, SCALE, 8), working_scale_of(SCALE, 8)),
                working_scale_of(SCALE, 8) as nat,
                SCALE as nat,
                RoundingMode::HalfEven,
            ),
    {
        self.checked_cos_with_context(MathContext::default())
    }

    /// The cosine under the default context.
    pub fn cos(&self) -> (r: Self)
        requires
            series_fits(working_scale_of(SCALE, 8) as nat),
        ensures
            r@ == rescaled(
                cos_value(working_mantissa(self@, SCALE, 8), working_scale_of(SCALE, 8)),
                working_scale_of(SCALE, 8) as nat,
                SCALE as nat,
                RoundingMode::HalfEven,
            ),
    {
        self.checked_cos().unwrap()
    }

    /// The tangent, evaluated with the context's guard digits and rounded once to the
    /// public scale under its mode. `None` at a quarter turn, within half a unit of the
    /// public scale (see `tan_value`).
    pub fn checked_tan_with_context(&self, context: MathContext) -> (r: Option<Self>)
        requires
            series_fits(working_scale_of(SCALE, context.guard_digits) as nat),
        ensures
            r is Some <==> tan_value(
                working_mantissa(self@, SCALE, context.guard_digits),
                working_scale_of(SCALE, context.guard_digits),
                SCALE,
            ) is Some,
            r matches Some(v) ==> tan_value(
                working_mantissa(self@, SCALE, context.guard_digits),
                working_scale_of(SCALE, context.guard_digits),
                SCALE,
            ) matches Some(t) && v@ == rescaled(
                t,
                working_scale_of(SCALE, context.guard_digits) as nat,
                SCALE as nat,
                context.rounding,
            ),
    {
        let value = EvalFixed::from_bigfixed(self, working_scale(SCALE, context.guard_digits));
        match value.tan(SCALE) {
            Some(result) => Some(result.to_bigfixed(context)),
            None => None,
        }
    }

    /// The tangent under the default context.
    pub fn checked_tan(&self) -> (r: Option<Self>)
        requires
            series_fits(working_scale_of(SCALE, 8) as nat),
        ensures
            r is Some <==> tan_value(
                working_mantissa(self@, SCALE, 8),
                working_scale_of(SCALE, 8),
                SCALE,
            ) is Some,
            r matches Some(v) ==> tan_value(
                working_mantissa(self@, SCALE, 8),
                working_scale_of(SCALE, 8),
                SCALE,
            ) matches Some(t) && v@ == rescaled(
                t,
                working_scale_of(SCALE, 8) as nat,
                SCALE as nat,
                RoundingMode::HalfEven,
            ),
    {
        self.checked_tan_with_context(MathContext::default())
    }

    /// The tangent under the default context, away from the quarter turns where it is
    /// undefined at this precision.
    pub fn tan(&self) -> (r: Self)
        requires
            series_fits(working_scale_of(SCALE, 8) as nat),
            tan_value(working_mantissa(self@, SCALE, 8), working_scale_of(SCALE, 8), SCALE) is Some,
        ensures
            tan_value(working_mantissa(self@, SCALE, 8), working_scale_of(SCALE, 8), SCALE) matches Some(
                t,
            ) && r@ == rescaled(
                t,
                working_scale_of(SCALE, 8) as nat,
                SCALE as nat,
                RoundingMode::HalfEven,
            ),
    {
        self.checked_tan().unwrap()
    }

    /// The base-ten logarithm: the natural logarithm over that of ten, both at the working
    /// scale. The quotient is rounded at the working scale in the context's mode, and then
    /// to the nearest value at the public scale, ties to even: the digits kept are those of
    /// the nearest value whatever the mode, so that two at four places gives 0.3010 under
    /// `Ceil` as under `HalfEven`. `None` for a value that is not positive (and where the
    /// decimal exponent at the working scale exceeds `u32::MAX`); the logarithm of ten is at
    /// least one unit at every scale.
    pub fn checked_log10_with_context(&self, context: MathContext) -> (r: Option<Self>)
        requires
            series_fits(working_scale_of(SCALE, context.guard_digits) as nat),
        ensures
            r is Some <==> ln_defined(self@, SCALE, context.guard_digits),
            r matches Some(v) ==> v@ == rescaled(
                fixed_quotient(
                    ln_value(
                        working_mantissa(self@, SCALE, context.guard_digits),
                        working_scale_of(SCALE, context.guard_digits),
                    ),
                    ln_ten_value(working_scale_of(SCALE, context.guard_digits)),
                    working_scale_of(SCALE, context.guard_digits) as nat,
                    context.rounding,
                ),
                working_scale_of(SCALE, context.guard_digits) as nat,
                SCALE as nat,
                RoundingMode::HalfEven,
            ),
    {
        let work_scale = working_scale(SCALE, context.guard_digits);
        let value = EvalFixed::from_bigfixed(self, work_scale);
        proof {
            lemma_working_sign(self@, SCALE, context.guard_digits);
            lemma_ten_pow_pos(work_scale as nat);
        }
        let natural = match value.ln() {
            Some(v) => v,
            None => {
                return None;
            },
        };
        proof {
            lemma_constants_positive(work_scale);
        }
        let ln_ten = match EvalFixed::from_i64(work_scale, 10).ln() {
            Some(v) => v,
            None => {
                return None;
            },
        };
        let nearest = MathContext { rounding: RoundingMode::HalfEven, guard_digits: context.guard_digits };
        match natural.div(&ln_ten, context.rounding) {
            Some(result) => Some(result.to_bigfixed(nearest)),
            None => None,
        }
    }

    /// The base-ten logarithm under the default context.
    pub fn checked_log10(&self) -> (r: Option<Self>)
        requires
            series_fits(working_scale_of(SCALE, 8) as nat),
        ensures
            r is Some <==> ln_defined(self@, SCALE, 8),
            r matches Some(v) ==> v@ == rescaled(
                fixed_quotient(
                    ln_value(working_mantissa(self@, SCALE, 8), working_scale_of(SCALE, 8)),
                    ln_ten_value(working_scale_of(SCALE, 8)),
                    working_scale_of(SCALE, 8) as nat,
                    RoundingMode::HalfEven,
                ),
                working_scale_of(SCALE, 8) as nat,
                SCALE as nat,
                RoundingMode::HalfEven,
            ),
    {
        self.checked_log10_with_context(MathContext::default())
    }

    /// The base-ten logarithm under the default context; the value must be positive.
    pub fn log10(&self) -> (r: Self)
        requires
            series_fits(working_scale_of(SCALE, 8) as nat),
            ln_defined(self@, SCALE, 8),
        ensures
            r@ == rescaled(
                fixed_quotient(
                    ln_value(working_mantissa(self@, SCALE, 8), working_scale_of(SCALE, 8)),
                    ln_ten_value(working_scale_of(SCALE, 8)),
                    working_scale_of(SCALE, 8) as nat,
                    RoundingMode::HalfEven,
                ),
                working_scale_of(SCALE, 8) as nat,
                SCALE as nat,
                RoundingMode::HalfEven,
            ),
    {
        self.checked_log10().unwrap()
    }
}

} // verus!
