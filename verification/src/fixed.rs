//! `BigFixed`: a decimal number with a fixed number of fractional digits, held as an
//! integer mantissa over ten to the scale.
use vstd::arithmetic::div_mod::*;
use vstd::arithmetic::mul::*;
use vstd::arithmetic::power::*;
use vstd::prelude::*;
use vstd::std_specs::ops::{AddSpecImpl, DivSpecImpl, MulSpecImpl, NegSpecImpl, SubSpecImpl};

use crate::bits::lemma_u32_halve;
use crate::digits::{all_decimal, digits_value, is_half_even, is_half_up};
use crate::rounding::{
    floor_root,
    lemma_floor_root,
    lemma_ten_pow_pos,
    root_round_up_due,
    should_increment_nth_root,
    should_increment_sqrt,
    sqrt_round_up_due,
    rescale_mantissa,
    rescaled,
    round_up_due,
    round_unsigned_pow10_division,
    rounded_div,
    should_increment_quotient,
    ten_pow,
    MathContext,
    RoundingMode,
};
use crate::signed::{
    abs,
    lemma_sign_product,
    sign_of,
    sign_product,
    signed_value,
    spec_sign_product,
    BigIntCore,
    Sign,
};
use crate::uint::BigUintCore;

verus! {

/// The integer `n / d`, its magnitude rounded under `mode` and its sign that of the
/// exact quotient.
pub open spec fn div_rounded(n: int, d: int, mode: RoundingMode) -> int {
    let sign = spec_sign_product(sign_of(n), sign_of(d));
    signed_value(sign, rounded_div(abs(n), abs(d), sign, mode))
}

/// The mantissa of the product of two mantissas at scale `s`: the exact product, which
/// has scale `2s`, brought back to scale `s` with ties to even.
pub open spec fn fixed_product(a: int, b: int, s: nat) -> int {
    rescaled(a * b, s + s, s, RoundingMode::HalfEven)
}

/// The mantissa of the quotient of two mantissas at scale `s`, rounded under `mode`.
pub open spec fn fixed_quotient(a: int, b: int, s: nat, mode: RoundingMode) -> int {
    div_rounded(a * ten_pow(s), b, mode)
}

/// The mantissa at scale `s` of the integer that `m / 10^s` rounds to under `mode`.
pub open spec fn integer_rounded(m: int, s: nat, mode: RoundingMode) -> int {
    let sign = sign_of(m);
    signed_value(sign, rounded_div(abs(m), ten_pow(s), sign, mode) * ten_pow(s))
}

/// The square root of `n` to the nearest integer under `mode`.
pub open spec fn rounded_sqrt(n: nat, mode: RoundingMode) -> nat {
    let r = floor_root(n, 2);
    r + if sqrt_round_up_due(r, (n - r * r) as nat, mode) {
        1nat
    } else {
        0nat
    }
}

/// The root of degree `k` of `n`, its integer part moved up one where `n` lies nearer
/// to the next power than to the last, as `mode` decides.
pub open spec fn rounded_root(n: nat, k: nat, mode: RoundingMode) -> nat {
    let r = floor_root(n, k);
    r + if root_round_up_due(r, (n - pow(r as int, k)) as nat, k, mode) {
        1nat
    } else {
        0nat
    }
}

/// `a * b`, or `u32::MAX` where the product does not fit.
pub open spec fn saturating_product(a: u32, b: u32) -> nat {
    if a * b > u32::MAX {
        u32::MAX as nat
    } else {
        (a * b) as nat
    }
}

/// The mantissa of the root of degree `k` of the value with mantissa `m` at scale `s`:
/// the radicand is brought to scale `s * k` (the exponent saturating at `u32::MAX`),
/// its root taken and rounded, and the sign of `m` kept.
pub open spec fn fixed_root(m: int, s: u32, k: u32, mode: RoundingMode) -> int {
    signed_value(
        sign_of(m),
        rounded_root(abs(m) * ten_pow(saturating_product(s, (k - 1) as u32)), k as nat, mode),
    )
}

/// Exponentiation by squaring on mantissas at scale `s`: `acc` times `base^e`, where each
/// product is brought back to scale `s` with ties to even. The bits of `e` are taken from
/// the lowest; `base` is squared between bits, and not after the last one.
pub open spec fn power_steps(acc: int, base: int, e: nat, s: nat) -> int
    decreases e,
{
    if e == 0 {
        acc
    } else {
        let next = if e % 2 == 1 {
            fixed_product(acc, base, s)
        } else {
            acc
        };
        if e / 2 == 0 {
            next
        } else {
            power_steps(next, fixed_product(base, base, s), e / 2, s)
        }
    }
}

/// The mantissa at scale `s` of the `e`-th power of the value with mantissa `m`,
/// computed by squaring from one.
pub open spec fn fixed_power(m: int, e: nat, s: nat) -> int {
    power_steps(ten_pow(s) as int, m, e, s)
}

/// A decimal number with `SCALE` fractional digits. Its view is its mantissa: the value
/// times `10^SCALE`, an integer.
#[derive(Debug)]
pub struct BigFixed<const SCALE: u32> {
    mantissa: BigIntCore,
}

impl<const SCALE: u32> View for BigFixed<SCALE> {
    type V = int;

    closed spec fn view(&self) -> int {
        self.mantissa@
    }
}

/// Scaling by a positive factor keeps the sign and scales the magnitude.
proof fn lemma_signed_scaling(a: int, t: nat)
    requires
        t > 0,
    ensures
        sign_of(a * t) == sign_of(a),
        abs(a * t) == abs(a) * t,
{
    lemma_sign_product(a, t as int);
}

/// Dividing by one rounds nothing away.
proof fn lemma_rounded_div_one(n: nat, sign: Sign, mode: RoundingMode)
    ensures
        rounded_div(n, 1, sign, mode) == n,
{
    lemma_fundamental_div_mod_converse(n as int, 1, n as int, 0);
}

impl<const SCALE: u32> BigFixed<SCALE> {
    pub fn zero() -> (r: Self)
        ensures
            r@ == 0,
    {
        BigFixed { mantissa: BigIntCore::zero() }
    }

    pub fn from_mantissa(mantissa: BigIntCore) -> (r: Self)
        ensures
            r@ == mantissa@,
    {
        BigFixed { mantissa }
    }

    pub fn mantissa(&self) -> (r: &BigIntCore)
        ensures
            r@ == self@,
    {
        &self.mantissa
    }

    pub fn is_zero(&self) -> (r: bool)
        ensures
            r == (self@ == 0),
    {
        self.mantissa.is_zero()
    }

    pub fn abs(&self) -> (r: Self)
        ensures
            r@ == abs(self@),
    {
        Self::from_mantissa(self.mantissa.abs())
    }

    /// The number one: a mantissa of `10^SCALE`.
    pub fn one() -> (r: Self)
        ensures
            r@ == ten_pow(SCALE as nat),
    {
        proof {
            lemma_ten_pow_pos(SCALE as nat);
        }
        Self::from_mantissa(
            BigIntCore::from_parts(Sign::Positive, BigUintCore::from_u64(1).mul_pow10(SCALE)),
        )
    }

    /// The same value at scale `NEW_SCALE`, rounded with ties to even where digits drop.
    pub fn rescale<const NEW_SCALE: u32>(&self) -> (r: BigFixed<NEW_SCALE>)
        ensures
            r@ == rescaled(self@, SCALE as nat, NEW_SCALE as nat, RoundingMode::HalfEven),
    {
        self.rescale_with_context::<NEW_SCALE>(MathContext::default())
    }

    /// The same value at scale `NEW_SCALE`, rounded under the context's mode where digits drop.
    pub fn rescale_with_context<const NEW_SCALE: u32>(&self, context: MathContext) -> (r:
        BigFixed<NEW_SCALE>)
        ensures
            r@ == rescaled(self@, SCALE as nat, NEW_SCALE as nat, context.rounding),
    {
        BigFixed::<NEW_SCALE>::from_mantissa(
            rescale_mantissa(&self.mantissa, SCALE, NEW_SCALE, context.rounding),
        )
    }

    /// The integer `integer` with sign `sign`, as a fixed-point number.
    fn from_scaled_integer(sign: Sign, integer: BigUintCore) -> (r: Self)
        ensures
            r@ == signed_value(sign, integer@ * ten_pow(SCALE as nat)),
    {
        proof {
            lemma_ten_pow_pos(SCALE as nat);
        }
        let magnitude = integer.mul_pow10(SCALE);
        Self::from_mantissa(BigIntCore::from_parts(sign, magnitude))
    }

    /// The integer part of the magnitude, its fractional digits most significant first,
    /// and whether any of them is nonzero.
    fn integer_parts(&self) -> (r: (BigUintCore, Vec<u8>, bool))
        ensures
            r.0@ == abs(self@) / ten_pow(SCALE as nat),
            r.1.len() == SCALE,
            all_decimal(r.1@),
            digits_value(r.1@) == abs(self@) % ten_pow(SCALE as nat),
            r.2 == (abs(self@) % ten_pow(SCALE as nat) != 0),
    {
        self.mantissa.magnitude().integer_parts(SCALE)
    }

    /// The value rounded to an integer under `rounding`.
    pub fn round_with_mode(&self, rounding: RoundingMode) -> (r: Self)
        ensures
            r@ == integer_rounded(self@, SCALE as nat, rounding),
    {
        let ghost m = self@;
        let ghost t = ten_pow(SCALE as nat);
        let (integer, fractional_digits, has_fraction) = self.integer_parts();
        proof {
            lemma_ten_pow_pos(SCALE as nat);
        }
        if !has_fraction {
            proof {
                lemma_fundamental_div_mod(abs(m) as int, t as int);
                assert(abs(m) == (abs(m) / t) * t);
            }
            return self.clone();
        }
        let sign = self.mantissa.sign();
        let increment = match rounding {
            RoundingMode::Down => false,
            RoundingMode::Up => true,
            RoundingMode::Floor => sign == Sign::Negative,
            RoundingMode::Ceil => sign == Sign::Positive,
            RoundingMode::HalfUp => is_half_up(&fractional_digits),
            RoundingMode::HalfEven => is_half_even(&integer, &fractional_digits),
        };
        proof {
            assert(increment == round_up_due(abs(m) / t, abs(m) % t, t, sign, rounding));
        }
        let integer = if increment {
            integer.add_small(1)
        } else {
            integer
        };
        Self::from_scaled_integer(sign, integer)
    }

    /// The value rounded towards zero to an integer.
    pub fn trunc(&self) -> (r: Self)
        ensures
            r@ == integer_rounded(self@, SCALE as nat, RoundingMode::Down),
    {
        self.round_with_mode(RoundingMode::Down)
    }

    /// The greatest integer not above the value.
    pub fn floor(&self) -> (r: Self)
        ensures
            r@ == integer_rounded(self@, SCALE as nat, RoundingMode::Floor),
    {
        self.round_with_mode(RoundingMode::Floor)
    }

    /// The least integer not below the value.
    pub fn ceil(&self) -> (r: Self)
        ensures
            r@ == integer_rounded(self@, SCALE as nat, RoundingMode::Ceil),
    {
        self.round_with_mode(RoundingMode::Ceil)
    }

    /// The nearest integer, ties to even.
    pub fn round(&self) -> (r: Self)
        ensures
            r@ == integer_rounded(self@, SCALE as nat, RoundingMode::HalfEven),
    {
        self.round_with_mode(RoundingMode::HalfEven)
    }
}

impl<const SCALE: u32> BigFixed<SCALE> {
    /// The quotient `self / rhs`, rounded under `rounding`; `None` when `rhs` is zero.
    pub fn checked_div_with_mode(&self, rhs: &Self, rounding: RoundingMode) -> (r: Option<Self>)
        ensures
            r is None <==> rhs@ == 0,
            r matches Some(q) ==> q@ == fixed_quotient(self@, rhs@, SCALE as nat, rounding),
    {
        proof {
            lemma_ten_pow_pos(SCALE as nat);
            lemma_signed_scaling(self@, ten_pow(SCALE as nat));
        }
        if rhs.is_zero() {
            return None;
        }
        if self.is_zero() {
            proof {
                lemma_mul_basics(ten_pow(SCALE as nat) as int);
            }
            return Some(Self::zero());
        }
        let sign = sign_product(self.mantissa.sign(), rhs.mantissa.sign());
        let scaled_numerator = self.mantissa.magnitude().mul_pow10(SCALE);
        let divisor = rhs.mantissa.magnitude();
        let (quotient, remainder) = scaled_numerator.div_rem(divisor);
        proof {
            lemma_fundamental_div_mod_converse(
                scaled_numerator@ as int,
                divisor@ as int,
                quotient@ as int,
                remainder@ as int,
            );
        }
        let quotient = if should_increment_quotient(
            &quotient,
            &remainder,
            divisor,
            sign,
            rounding,
        ) {
            quotient.add_small(1)
        } else {
            quotient
        };
        Some(Self::from_mantissa(BigIntCore::from_parts(sign, quotient)))
    }

    /// The quotient, ties to even; `None` when `rhs` is zero.
    pub fn checked_div(&self, rhs: &Self) -> (r: Option<Self>)
        ensures
            r is None <==> rhs@ == 0,
            r matches Some(q) ==> q@ == fixed_quotient(
                self@,
                rhs@,
                SCALE as nat,
                RoundingMode::HalfEven,
            ),
    {
        self.checked_div_with_mode(rhs, RoundingMode::HalfEven)
    }

    /// The quotient, rounded under the context's mode; `None` when `rhs` is zero.
    pub fn checked_div_with_context(&self, rhs: &Self, context: MathContext) -> (r: Option<Self>)
        ensures
            r is None <==> rhs@ == 0,
            r matches Some(q) ==> q@ == fixed_quotient(self@, rhs@, SCALE as nat, context.rounding),
    {
        self.checked_div_with_mode(rhs, context.rounding)
    }

    /// One over the value, ties to even; `None` for zero.
    pub fn checked_recip(&self) -> (r: Option<Self>)
        ensures
            r is None <==> self@ == 0,
            r matches Some(q) ==> q@ == fixed_quotient(
                ten_pow(SCALE as nat) as int,
                self@,
                SCALE as nat,
                RoundingMode::HalfEven,
            ),
    {
        Self::one().checked_div(self)
    }

    /// One over the value, rounded under the context's mode; `None` for zero.
    pub fn checked_recip_with_context(&self, context: MathContext) -> (r: Option<Self>)
        ensures
            r is None <==> self@ == 0,
            r matches Some(q) ==> q@ == fixed_quotient(
                ten_pow(SCALE as nat) as int,
                self@,
                SCALE as nat,
                context.rounding,
            ),
    {
        Self::one().checked_div_with_context(self, context)
    }

    /// One over the value, ties to even. The value must not be zero.
    pub fn recip(&self) -> (r: Self)
        requires
            self@ != 0,
        ensures
            r@ == fixed_quotient(
                ten_pow(SCALE as nat) as int,
                self@,
                SCALE as nat,
                RoundingMode::HalfEven,
            ),
    {
        self.checked_recip().unwrap()
    }

    /// The square root, rounded under `rounding`; `None` for a negative value.
    pub fn checked_sqrt_with_mode(&self, rounding: RoundingMode) -> (r: Option<Self>)
        ensures
            r is None <==> self@ < 0,
            r matches Some(v) ==> v@ == rounded_sqrt(
                (self@ * ten_pow(SCALE as nat)) as nat,
                rounding,
            ),
    {
        proof {
            lemma_ten_pow_pos(SCALE as nat);
            lemma_signed_scaling(self@, ten_pow(SCALE as nat));
        }
        if self.mantissa.sign() == Sign::Negative {
            return None;
        }
        if self.is_zero() {
            proof {
                lemma_mul_basics(ten_pow(SCALE as nat) as int);
                lemma_square_is_pow2(0);
                lemma_square_is_pow2(1);
                lemma_floor_root(0, 2, 0);
            }
            return Some(Self::zero());
        }
        let radicand = self.mantissa.magnitude().mul_pow10(SCALE);
        let (root, remainder) = radicand.sqrt_rem();
        proof {
            lemma_square_is_pow2(root@ as int);
            lemma_square_is_pow2((root@ + 1) as int);
            lemma_floor_root(radicand@, 2, root@);
        }
        let root = if should_increment_sqrt(&root, &remainder, rounding) {
            root.add_small(1)
        } else {
            root
        };
        Some(Self::from_mantissa(BigIntCore::from_parts(Sign::Positive, root)))
    }

    /// The square root, ties to even; `None` for a negative value.
    pub fn checked_sqrt(&self) -> (r: Option<Self>)
        ensures
            r is None <==> self@ < 0,
            r matches Some(v) ==> v@ == rounded_sqrt(
                (self@ * ten_pow(SCALE as nat)) as nat,
                RoundingMode::HalfEven,
            ),
    {
        self.checked_sqrt_with_mode(RoundingMode::HalfEven)
    }

    /// The square root, rounded under the context's mode; `None` for a negative value.
    pub fn checked_sqrt_with_context(&self, context: MathContext) -> (r: Option<Self>)
        ensures
            r is None <==> self@ < 0,
            r matches Some(v) ==> v@ == rounded_sqrt(
                (self@ * ten_pow(SCALE as nat)) as nat,
                context.rounding,
            ),
    {
        self.checked_sqrt_with_mode(context.rounding)
    }

    /// The square root, ties to even. The value must not be negative.
    pub fn sqrt(&self) -> (r: Self)
        requires
            self@ >= 0,
        ensures
            r@ == rounded_sqrt((self@ * ten_pow(SCALE as nat)) as nat, RoundingMode::HalfEven),
    {
        self.checked_sqrt().unwrap()
    }

    /// The root of degree `degree`, rounded under `rounding`; `None` for degree zero and
    /// for an even root of a negative value. The root of a negative value is that of its
    /// magnitude, negated, and the magnitude's root is the one rounded: `Floor` rounds it
    /// towards zero and `Ceil` away from zero, as `Down` and `Up` do.
    pub fn checked_nth_root_with_mode(&self, degree: u32, rounding: RoundingMode) -> (r: Option<
        Self,
    >)
        ensures
            r is None <==> degree == 0 || (self@ < 0 && degree % 2 == 0),
            r matches Some(v) ==> v@ == fixed_root(self@, SCALE, degree, rounding),
    {
        if degree == 0 {
            return None;
        }
        let ghost k = degree as nat;
        if self.is_zero() {
            proof {
                lemma_mul_basics(ten_pow(saturating_product(SCALE, (degree - 1) as u32)) as int);
                lemma0_pow(k);
                lemma_pow1(0);
                assert(pow(1, k) == 1) by {
                    lemma1_pow(k);
                }
                lemma_floor_root(0, k, 0);
            }
            return Some(Self::zero());
        }
        let sign = self.mantissa.sign();
        if sign == Sign::Negative && degree % 2 == 0 {
            return None;
        }
        let exponent = match SCALE.checked_mul(degree - 1) {
            Some(product) => product,
            None => u32::MAX,
        };
        let radicand = self.mantissa.magnitude().mul_pow10(exponent);
        proof {
            lemma_ten_pow_pos(exponent as nat);
        }
        let (root, remainder) = match radicand.nth_root_rem(degree) {
            Some(pair) => pair,
            None => {
                return None;
            },
        };
        proof {
            lemma_floor_root(radicand@, k, root@);
        }
        let root = if should_increment_nth_root(&root, &remainder, degree, rounding) {
            root.add_small(1)
        } else {
            root
        };
        let result_sign = if sign == Sign::Negative {
            Sign::Negative
        } else {
            Sign::Positive
        };
        Some(Self::from_mantissa(BigIntCore::from_parts(result_sign, root)))
    }

    /// The root of degree `degree`, ties to even; `None` for degree zero and for an even
    /// root of a negative value.
    pub fn checked_nth_root(&self, degree: u32) -> (r: Option<Self>)
        ensures
            r is None <==> degree == 0 || (self@ < 0 && degree % 2 == 0),
            r matches Some(v) ==> v@ == fixed_root(self@, SCALE, degree, RoundingMode::HalfEven),
    {
        self.checked_nth_root_with_mode(degree, RoundingMode::HalfEven)
    }

    /// The root of degree `degree`, rounded under the context's mode; `None` for degree
    /// zero and for an even root of a negative value.
    /// A negative value's root is rounded by its magnitude, as with
    /// `checked_nth_root_with_mode`.
    pub fn checked_nth_root_with_context(&self, degree: u32, context: MathContext) -> (r: Option<
        Self,
    >)
        ensures
            r is None <==> degree == 0 || (self@ < 0 && degree % 2 == 0),
            r matches Some(v) ==> v@ == fixed_root(self@, SCALE, degree, context.rounding),
    {
        self.checked_nth_root_with_mode(degree, context.rounding)
    }

    /// The root of degree `degree`, ties to even. The degree must not be zero, nor even
    /// for a negative value.
    pub fn nth_root(&self, degree: u32) -> (r: Self)
        requires
            degree != 0,
            !(self@ < 0 && degree % 2 == 0),
        ensures
            r@ == fixed_root(self@, SCALE, degree, RoundingMode::HalfEven),
    {
        self.checked_nth_root(degree).unwrap()
    }
}

impl<const SCALE: u32> BigFixed<SCALE> {
    /// The value to the power `exponent`, by squaring; each product is rounded back to
    /// `SCALE` digits with ties to even.
    pub fn powu(&self, exponent: u32) -> (r: Self)
        ensures
            r@ == fixed_power(self@, exponent as nat, SCALE as nat),
    {
        if exponent == 0 {
            return Self::one();
        }
        let ghost e0 = exponent as nat;
        let mut exponent = exponent;
        let mut base = self.clone();
        let mut result = Self::one();
        while exponent != 0
            invariant
                fixed_power(self@, e0, SCALE as nat) == power_steps(
                    result@,
                    base@,
                    exponent as nat,
                    SCALE as nat,
                ),
            decreases exponent,
        {
            proof {
                lemma_u32_halve(exponent);
            }
            if exponent & 1 == 1 {
                result = result * base.clone();
            }
            exponent = exponent >> 1;
            if exponent != 0 {
                base = base.clone() * base;
            }
        }
        result
    }

    /// The value to the power `exponent`; a negative exponent takes one over the power.
    /// `None` where that power is zero.
    pub fn checked_powi(&self, exponent: i32) -> (r: Option<Self>)
        ensures
            exponent >= 0 ==> (r matches Some(v) && v@ == fixed_power(
                self@,
                exponent as nat,
                SCALE as nat,
            )),
            exponent < 0 ==> (r is None <==> fixed_power(
                self@,
                (-exponent) as nat,
                SCALE as nat,
            ) == 0),
            exponent < 0 ==> (r matches Some(v) ==> v@ == fixed_quotient(
                ten_pow(SCALE as nat) as int,
                fixed_power(self@, (-exponent) as nat, SCALE as nat),
                SCALE as nat,
                RoundingMode::HalfEven,
            )),
    {
        if exponent >= 0 {
            return Some(self.powu(exponent as u32));
        }
        let magnitude: u32 = if exponent == i32::MIN {
            0x8000_0000
        } else {
            (-exponent) as u32
        };
        let positive = self.powu(magnitude);
        Self::one().checked_div(&positive)
    }

    /// The value to the power `exponent`; a negative exponent takes one over the power,
    /// which must then not be zero.
    pub fn powi(&self, exponent: i32) -> (r: Self)
        requires
            exponent >= 0 || fixed_power(self@, (-exponent) as nat, SCALE as nat) != 0,
        ensures
            exponent >= 0 ==> r@ == fixed_power(self@, exponent as nat, SCALE as nat),
            exponent < 0 ==> r@ == fixed_quotient(
                ten_pow(SCALE as nat) as int,
                fixed_power(self@, (-exponent) as nat, SCALE as nat),
                SCALE as nat,
                RoundingMode::HalfEven,
            ),
    {
        self.checked_powi(exponent).unwrap()
    }
}

impl<const SCALE: u32> core::ops::Neg for BigFixed<SCALE> {
    type Output = Self;

    fn neg(self) -> (r: Self)
        ensures
            r@ == -self@,
    {
        Self::from_mantissa(self.mantissa.negated())
    }
}

impl<const SCALE: u32> NegSpecImpl for BigFixed<SCALE> {
    open spec fn obeys_neg_spec() -> bool {
        false
    }

    open spec fn neg_req(self) -> bool {
        true
    }

    closed spec fn neg_spec(self) -> Self {
        choose|r: Self| r@ == -self@
    }
}

impl<const SCALE: u32> core::ops::Add for BigFixed<SCALE> {
    type Output = Self;

    fn add(self, rhs: Self) -> (r: Self)
        ensures
            r@ == self@ + rhs@,
    {
        Self::from_mantissa(self.mantissa.add(&rhs.mantissa))
    }
}

impl<const SCALE: u32> AddSpecImpl for BigFixed<SCALE> {
    open spec fn obeys_add_spec() -> bool {
        false
    }

    open spec fn add_req(self, rhs: Self) -> bool {
        true
    }

    closed spec fn add_spec(self, rhs: Self) -> Self {
        choose|r: Self| r@ == self@ + rhs@
    }
}

impl<const SCALE: u32> core::ops::Sub for BigFixed<SCALE> {
    type Output = Self;

    fn sub(self, rhs: Self) -> (r: Self)
        ensures
            r@ == self@ - rhs@,
    {
        Self::from_mantissa(self.mantissa.sub(&rhs.mantissa))
    }
}

impl<const SCALE: u32> SubSpecImpl for BigFixed<SCALE> {
    open spec fn obeys_sub_spec() -> bool {
        false
    }

    open spec fn sub_req(self, rhs: Self) -> bool {
        true
    }

    closed spec fn sub_spec(self, rhs: Self) -> Self {
        choose|r: Self| r@ == self@ - rhs@
    }
}

impl<const SCALE: u32> core::ops::Mul for BigFixed<SCALE> {
    type Output = Self;

    /// The product, brought back to `SCALE` digits with ties to even.
    fn mul(self, rhs: Self) -> (r: Self)
        ensures
            r@ == fixed_product(self@, rhs@, SCALE as nat),
    {
        let ghost a = self@;
        let ghost b = rhs@;
        let sign = sign_product(self.mantissa.sign(), rhs.mantissa.sign());
        proof {
            lemma_sign_product(a, b);
        }
        if sign == Sign::Zero {
            return Self::zero();
        }
        let product = self.mantissa.magnitude().mul(rhs.mantissa.magnitude());
        let scaled_mantissa = round_unsigned_pow10_division(
            &product,
            SCALE,
            sign,
            RoundingMode::HalfEven,
        );
        proof {
            if SCALE == 0 {
                lemma_pow0(10);
                lemma_rounded_div_one(product@, sign, RoundingMode::HalfEven);
            }
        }
        Self::from_mantissa(BigIntCore::from_parts(sign, scaled_mantissa))
    }
}

impl<const SCALE: u32> MulSpecImpl for BigFixed<SCALE> {
    open spec fn obeys_mul_spec() -> bool {
        false
    }

    open spec fn mul_req(self, rhs: Self) -> bool {
        true
    }

    closed spec fn mul_spec(self, rhs: Self) -> Self {
        choose|r: Self| r@ == fixed_product(self@, rhs@, SCALE as nat)
    }
}

impl<const SCALE: u32> core::ops::Div for BigFixed<SCALE> {
    type Output = Self;

    /// The quotient, ties to even. The divisor must not be zero.
    fn div(self, rhs: Self) -> (r: Self)
        ensures
            r@ == fixed_quotient(self@, rhs@, SCALE as nat, RoundingMode::HalfEven),
    {
        self.checked_div(&rhs).unwrap()
    }
}

impl<const SCALE: u32> DivSpecImpl for BigFixed<SCALE> {
    open spec fn obeys_div_spec() -> bool {
        false
    }

    open spec fn div_req(self, rhs: Self) -> bool {
        rhs@ != 0
    }

    closed spec fn div_spec(self, rhs: Self) -> Self {
        choose|r: Self| r@ == fixed_quotient(self@, rhs@, SCALE as nat, RoundingMode::HalfEven)
    }
}

impl<const SCALE: u32> Clone for BigFixed<SCALE> {
    fn clone(&self) -> (r: Self)
        ensures
            r@ == self@,
    {
        BigFixed { mantissa: self.mantissa.clone() }
    }
}

impl<const SCALE: u32> Default for BigFixed<SCALE> {
    fn default() -> (r: Self)
        ensures
            r@ == 0,
    {
        Self::zero()
    }
}

} // verus!
