//! Rounding modes, the rounding of quotients and roots, and rescaling between decimal scales.
use vstd::arithmetic::div_mod::*;
use vstd::arithmetic::mul::*;
use vstd::arithmetic::power::*;
use vstd::prelude::*;

use crate::bits::lemma_pow_base_mono;
use crate::signed::{
    abs,
    sign_of,
    signed_value,
    BigIntCore,
    Sign,
};
use crate::uint::BigUintCore;

verus! {

/// How an inexact result is brought to the nearest representable value.
#[derive(Clone, Copy, Debug, PartialEq, Eq, Structural)]
pub enum RoundingMode {
    /// To nearest, ties to the even neighbour.
    HalfEven,
    /// To nearest, ties away from zero.
    HalfUp,
    /// Towards zero.
    Down,
    /// Away from zero.
    Up,
    /// Towards negative infinity. Roots are the exception: a root is rounded by its
    /// magnitude, so the root of a negative value is rounded towards zero.
    Floor,
    /// Towards positive infinity. Roots are the exception: a root is rounded by its
    /// magnitude, so the root of a negative value is rounded away from zero.
    Ceil,
}

/// The rounding of public results and the extra digits that iterative evaluation uses.
#[derive(Clone, Copy, Debug, PartialEq, Eq, Structural)]
pub struct MathContext {
    pub rounding: RoundingMode,
    pub guard_digits: u32,
}

impl Default for MathContext {
    fn default() -> (r: Self)
        ensures
            r.rounding == RoundingMode::HalfEven,
            r.guard_digits == 8,
    {
        MathContext { rounding: RoundingMode::HalfEven, guard_digits: 8 }
    }
}

/// Ten to the power `n`.
pub open spec fn ten_pow(n: nat) -> nat {
    pow(10, n) as nat
}

pub proof fn lemma_ten_pow_pos(n: nat)
    ensures
        ten_pow(n) >= 1,
        pow(10, n) == ten_pow(n),
{
    lemma_pow_positive(10, n);
}

pub proof fn lemma_ten_pow_add(a: nat, b: nat)
    ensures
        ten_pow(a + b) == ten_pow(a) * ten_pow(b),
{
    lemma_pow_adds(10, a, b);
    lemma_pow_positive(10, a);
    lemma_pow_positive(10, b);
}

/// Whether a truncated quotient `q` with remainder `r` of a division by `d` is moved one
/// step away from zero, for a result of sign `sign` under `mode`.
pub open spec fn round_up_due(q: nat, r: nat, d: nat, sign: Sign, mode: RoundingMode) -> bool {
    r != 0 && match mode {
        RoundingMode::Down => false,
        RoundingMode::Up => true,
        RoundingMode::Floor => sign == Sign::Negative,
        RoundingMode::Ceil => sign == Sign::Positive,
        RoundingMode::HalfUp => 2 * r >= d,
        RoundingMode::HalfEven => 2 * r > d || (2 * r == d && q % 2 == 1),
    }
}

/// The magnitude `n / d`, rounded under `mode` for a result of sign `sign`.
pub open spec fn rounded_div(n: nat, d: nat, sign: Sign, mode: RoundingMode) -> nat {
    n / d + if round_up_due(n / d, n % d, d, sign, mode) {
        1nat
    } else {
        0nat
    }
}

/// Whether the integer square root `root`, `rem` short of the radicand, is moved up one
/// under `mode`: the radicand lies at or beyond the midpoint `(root + 1/2)^2` as the mode asks.
pub open spec fn sqrt_round_up_due(root: nat, rem: nat, mode: RoundingMode) -> bool {
    rem != 0 && match mode {
        RoundingMode::Down | RoundingMode::Floor => false,
        RoundingMode::Up | RoundingMode::Ceil => true,
        RoundingMode::HalfUp => 4 * rem >= 4 * root + 1,
        RoundingMode::HalfEven => 4 * rem > 4 * root + 1 || (4 * rem == 4 * root + 1 && root % 2
            == 1),
    }
}

/// Whether the integer root `root` of degree `degree`, `rem` short of the radicand, is
/// moved up one under `mode`: the radicand is nearer to `(root + 1)^degree` than to
/// `root^degree`, or as near and the mode breaks the tie upwards. The root is taken of a
/// magnitude, so `Floor` keeps it and `Ceil` moves it up whatever the sign of the value.
pub open spec fn root_round_up_due(root: nat, rem: nat, degree: nat, mode: RoundingMode) -> bool {
    let up = pow((root + 1) as int, degree) - (pow(root as int, degree) + rem);
    rem != 0 && match mode {
        RoundingMode::Down | RoundingMode::Floor => false,
        RoundingMode::Up | RoundingMode::Ceil => true,
        RoundingMode::HalfUp => rem >= up,
        RoundingMode::HalfEven => rem > up || (rem == up && root % 2 == 1),
    }
}

/// `r^k <= n < (r + 1)^k`.
pub open spec fn is_floor_root(r: nat, n: nat, k: nat) -> bool {
    pow(r as int, k) <= n && n < pow((r + 1) as int, k)
}

/// The integer root of degree `k`: the `r` with `r^k <= n < (r + 1)^k`.
pub open spec fn floor_root(n: nat, k: nat) -> nat {
    choose|r: nat| #[trigger] is_floor_root(r, n, k)
}

/// Only one integer root fits between consecutive powers.
pub proof fn lemma_floor_root(n: nat, k: nat, r: nat)
    requires
        k >= 1,
        pow(r as int, k) <= n,
        n < pow((r + 1) as int, k),
    ensures
        floor_root(n, k) == r,
{
    assert(is_floor_root(r, n, k));
    let f = floor_root(n, k);
    assert(pow(f as int, k) <= n && n < pow((f + 1) as int, k));
    if f < r {
        lemma_pow_base_mono(f + 1, r, k);
    } else if r < f {
        lemma_pow_base_mono(r + 1, f, k);
    }
}

/// The integer `m` scaled by `10^(to - from)`: multiplied exactly when the scale grows,
/// divided and rounded under `mode` when it shrinks.
pub open spec fn rescaled(m: int, from: nat, to: nat, mode: RoundingMode) -> int {
    if m == 0 || from == to {
        m
    } else if to > from {
        m * ten_pow((to - from) as nat)
    } else {
        signed_value(
            sign_of(m),
            rounded_div(abs(m), ten_pow((from - to) as nat), sign_of(m), mode),
        )
    }
}

/// Whether the truncated quotient moves one step away from zero.
pub fn should_increment_quotient(
    quotient: &BigUintCore,
    remainder: &BigUintCore,
    divisor: &BigUintCore,
    sign: Sign,
    rounding: RoundingMode,
) -> (r: bool)
    ensures
        r == round_up_due(quotient@, remainder@, divisor@, sign, rounding),
{
    if remainder.is_zero() {
        return false;
    }
    match rounding {
        RoundingMode::Down => false,
        RoundingMode::Up => true,
        RoundingMode::Floor => sign == Sign::Negative,
        RoundingMode::Ceil => sign == Sign::Positive,
        RoundingMode::HalfUp => {
            let doubled = remainder.mul_small(2);
            doubled.compare_to(divisor) != -1
        },
        RoundingMode::HalfEven => {
            let doubled = remainder.mul_small(2);
            let order = doubled.compare_to(divisor);
            if order == -1 {
                false
            } else if order == 1 {
                true
            } else {
                let parity = quotient.div_rem_small(2).1;
                proof {
                    lemma_fundamental_div_mod(quotient@ as int, 2);
                }
                parity == 1
            }
        },
    }
}

/// Whether the integer square root moves up one.
pub fn should_increment_sqrt(root: &BigUintCore, remainder: &BigUintCore, rounding: RoundingMode) -> (r:
    bool)
    ensures
        r == sqrt_round_up_due(root@, remainder@, rounding),
{
    if remainder.is_zero() {
        return false;
    }
    match rounding {
        RoundingMode::Down | RoundingMode::Floor => {
            return false;
        },
        RoundingMode::Up | RoundingMode::Ceil => {
            return true;
        },
        RoundingMode::HalfUp | RoundingMode::HalfEven => {},
    }
    let scaled_remainder = remainder.mul_small(4);
    let midpoint = root.mul_small(4).add_small(1);
    let order = scaled_remainder.compare_to(&midpoint);
    if order == -1 {
        false
    } else if order == 1 {
        true
    } else {
        match rounding {
            RoundingMode::HalfUp => true,
            RoundingMode::HalfEven => {
                let parity = root.div_rem_small(2).1;
                proof {
                    lemma_fundamental_div_mod(root@ as int, 2);
                }
                parity == 1
            },
            _ => false,
        }
    }
}

/// Whether the integer root of degree `degree` moves up one.
pub fn should_increment_nth_root(
    root: &BigUintCore,
    remainder: &BigUintCore,
    degree: u32,
    rounding: RoundingMode,
) -> (r: bool)
    requires
        pow(root@ as int, degree as nat) + remainder@ < pow((root@ + 1) as int, degree as nat),
    ensures
        r == root_round_up_due(root@, remainder@, degree as nat, rounding),
{
    if remainder.is_zero() {
        return false;
    }
    match rounding {
        RoundingMode::Down | RoundingMode::Floor => {
            return false;
        },
        RoundingMode::Up | RoundingMode::Ceil => {
            return true;
        },
        RoundingMode::HalfUp | RoundingMode::HalfEven => {},
    }
    let next = root.add_small(1);
    let delta_up = next.pow_u32(degree).sub(&root.pow_u32(degree).add(remainder));
    let order = remainder.compare_to(&delta_up);
    if order == -1 {
        false
    } else if order == 1 {
        true
    } else {
        match rounding {
            RoundingMode::HalfUp => true,
            RoundingMode::HalfEven => {
                let parity = root.div_rem_small(2).1;
                proof {
                    lemma_fundamental_div_mod(root@ as int, 2);
                }
                parity == 1
            },
            _ => false,
        }
    }
}

/// The magnitude `value / 10^scale_digits`, rounded under `rounding` for a result of sign `sign`.
pub fn round_unsigned_pow10_division(
    value: &BigUintCore,
    scale_digits: u32,
    sign: Sign,
    rounding: RoundingMode,
) -> (r: BigUintCore)
    ensures
        r@ == rounded_div(value@, ten_pow(scale_digits as nat), sign, rounding),
{
    if scale_digits == 0 {
        proof {
            lemma_pow0(10);
            lemma_fundamental_div_mod(value@ as int, 1);
        }
        return value.clone();
    }
    let divisor = BigUintCore::one().mul_pow10(scale_digits);
    proof {
        lemma_ten_pow_pos(scale_digits as nat);
        lemma_mul_basics(ten_pow(scale_digits as nat) as int);
    }
    let (quotient, remainder) = value.div_rem(&divisor);
    proof {
        lemma_fundamental_div_mod_converse(
            value@ as int,
            divisor@ as int,
            quotient@ as int,
            remainder@ as int,
        );
    }
    if should_increment_quotient(&quotient, &remainder, &divisor, sign, rounding) {
        quotient.add_small(1)
    } else {
        quotient
    }
}

/// The mantissa `mantissa` at scale `from_scale` brought to scale `to_scale`.
pub fn rescale_mantissa(
    mantissa: &BigIntCore,
    from_scale: u32,
    to_scale: u32,
    rounding: RoundingMode,
) -> (r: BigIntCore)
    ensures
        r@ == rescaled(mantissa@, from_scale as nat, to_scale as nat, rounding),
{
    if mantissa.is_zero() || from_scale == to_scale {
        return mantissa.clone();
    }
    if to_scale > from_scale {
        let scaled = mantissa.magnitude().mul_pow10(to_scale - from_scale);
        proof {
            lemma_ten_pow_pos((to_scale - from_scale) as nat);
            let m = mantissa@;
            let t = ten_pow((to_scale - from_scale) as nat);
            if m < 0 {
                assert(-((-m) * t) == m * t) by (nonlinear_arith);
            }
        }
        return BigIntCore::from_parts(mantissa.sign(), scaled);
    }
    let scale_diff = from_scale - to_scale;
    let divisor = BigUintCore::one().mul_pow10(scale_diff);
    proof {
        lemma_ten_pow_pos(scale_diff as nat);
        lemma_mul_basics(ten_pow(scale_diff as nat) as int);
    }
    let (quotient, remainder) = mantissa.magnitude().div_rem(&divisor);
    proof {
        lemma_fundamental_div_mod_converse(
            abs(mantissa@) as int,
            divisor@ as int,
            quotient@ as int,
            remainder@ as int,
        );
    }
    let rounded = if should_increment_quotient(
        &quotient,
        &remainder,
        &divisor,
        mantissa.sign(),
        rounding,
    ) {
        quotient.add_small(1)
    } else {
        quotient
    };
    BigIntCore::from_parts(mantissa.sign(), rounded)
}

} // verus!
