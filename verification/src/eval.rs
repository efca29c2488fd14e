//! `EvalFixed`: a fixed-point number whose scale is chosen at run time, the working type
//! of the iterative functions.
use vstd::arithmetic::div_mod::*;
use vstd::arithmetic::mul::*;
use vstd::arithmetic::power::*;
use vstd::prelude::*;

use crate::fixed::{
    div_rounded,
    fixed_product,
    fixed_quotient,
    rounded_sqrt,
    BigFixed,
};
use crate::rounding::{
    lemma_floor_root,
    lemma_ten_pow_pos,
    rescale_mantissa,
    rescaled,
    round_unsigned_pow10_division,
    should_increment_quotient,
    should_increment_sqrt,
    ten_pow,
    MathContext,
    RoundingMode,
};
use crate::signed::{
    abs,
    lemma_sign_product,
    sign_of,
    sign_product,
    BigIntCore,
    Sign,
};
use crate::parse::{
    copy_range,
    lemma_utf8_len_lower,
    point_bounds,
    split_point,
    utf8_len,
    utf8_len_exceeds,
};
use crate::rounding::lemma_ten_pow_add;
use crate::text::{
    all_digits,
    chars_of,
    decimal_string,
    decimal_value,
};
use crate::uint::BigUintCore;

verus! {

/// The number of decimal digits of a number; zero has one.
pub open spec fn digit_count(n: nat) -> nat {
    decimal_string(n).len()
}

/// The decimal exponent of the value with mantissa `m` at scale `s`: the position of its
/// leading digit, counted from the units.
pub open spec fn decimal_exponent_of(m: int, s: nat) -> int {
    digit_count(abs(m)) - 1 - s
}

/// The mantissa `m` divided by ten to `e` (ties to even), or multiplied by ten to `-e`.
pub open spec fn shifted(m: int, e: int) -> int {
    if e == 0 || m == 0 {
        m
    } else if e > 0 {
        div_rounded(m, ten_pow(e as nat) as int, RoundingMode::HalfEven)
    } else {
        m * ten_pow((-e) as nat)
    }
}

/// The mantissa at scale `scale` of a decimal literal: its digits around an optional
/// point, read at the scale of its fractional digits and brought to `scale` with ties to
/// even; `None` for a second point, a fraction longer than `u32::MAX` bytes, or a
/// character that is not an ASCII digit.
pub open spec fn literal_mantissa(lit: Seq<char>, scale: u32) -> Option<int> {
    let (i, f, second) = split_point(lit);
    if second || utf8_len(f) > u32::MAX || !all_digits(i + f) {
        None
    } else {
        Some(rescaled(decimal_value(i + f) as int, f.len(), scale as nat, RoundingMode::HalfEven))
    }
}

/// A number has as many digits as the power of ten above it.
pub proof fn lemma_digit_count(n: nat)
    ensures
        digit_count(n) >= 1,
        n < ten_pow(digit_count(n)),
        n >= 1 ==> ten_pow((digit_count(n) - 1) as nat) <= n,
    decreases n,
{
    if n < 10 {
        lemma_pow0(10);
        lemma_pow1(10);
    } else {
        lemma_digit_count(n / 10);
        let l = digit_count(n / 10);
        assert(digit_count(n) == l + 1);
        lemma_ten_pow_add(l, 1);
        lemma_ten_pow_add((l - 1) as nat, 1);
        lemma_pow1(10);
        assert(((l - 1) as nat + 1) == l);
        let p = ten_pow((l - 1) as nat);
        let q = ten_pow(l);
        assert(p * 10 <= n && n < q * 10) by (nonlinear_arith)
            requires
                p <= n / 10,
                n / 10 < q,
                n >= 10,
        ;
    }
}

/// A mantissa with the decimal scale it is read at. Its view is the pair of the two.
#[derive(Debug)]
pub(crate) struct EvalFixed {
    mantissa: BigIntCore,
    scale: u32,
}

impl View for EvalFixed {
    type V = (int, u32);

    closed spec fn view(&self) -> (int, u32) {
        (self.mantissa@, self.scale)
    }
}

impl Clone for EvalFixed {
    fn clone(&self) -> (r: Self)
        ensures
            r@ == self@,
    {
        EvalFixed { mantissa: self.mantissa.clone(), scale: self.scale }
    }
}

impl EvalFixed {
    pub fn zero(scale: u32) -> (r: Self)
        ensures
            r@ == (0int, scale),
    {
        EvalFixed { mantissa: BigIntCore::zero(), scale }
    }

    pub fn one(scale: u32) -> (r: Self)
        ensures
            r@ == (ten_pow(scale as nat) as int, scale),
    {
        let r = Self::from_i64(scale, 1);
        proof {
            lemma_ten_pow_pos(scale as nat);
            lemma_mul_basics(ten_pow(scale as nat) as int);
        }
        r
    }

    /// The integer `value` at scale `scale`.
    pub fn from_i64(scale: u32, value: i64) -> (r: Self)
        ensures
            r@ == (value * ten_pow(scale as nat), scale),
    {
        proof {
            lemma_ten_pow_pos(scale as nat);
            lemma_sign_product(value as int, ten_pow(scale as nat) as int);
        }
        if value == 0 {
            proof {
                lemma_mul_basics(ten_pow(scale as nat) as int);
            }
            return Self::zero(scale);
        }
        let sign = if value < 0 {
            Sign::Negative
        } else {
            Sign::Positive
        };
        let unsigned: u64 = if value == i64::MIN {
            0x8000_0000_0000_0000
        } else if value < 0 {
            (-value) as u64
        } else {
            value as u64
        };
        let magnitude = BigUintCore::from_u64(unsigned).mul_pow10(scale);
        EvalFixed { mantissa: BigIntCore::from_parts(sign, magnitude), scale }
    }

    /// A public fixed-point value brought to scale `scale`, ties to even.
    pub fn from_bigfixed<const SCALE: u32>(value: &BigFixed<SCALE>, scale: u32) -> (r: Self)
        ensures
            r@ == (rescaled(value@, SCALE as nat, scale as nat, RoundingMode::HalfEven), scale),
    {
        EvalFixed {
            mantissa: rescale_mantissa(value.mantissa(), SCALE, scale, RoundingMode::HalfEven),
            scale,
        }
    }

    /// The value brought to the public scale `SCALE` under the context's rounding.
    pub fn to_bigfixed<const SCALE: u32>(&self, context: MathContext) -> (r: BigFixed<SCALE>)
        ensures
            r@ == rescaled(self@.0, self@.1 as nat, SCALE as nat, context.rounding),
    {
        BigFixed::<SCALE>::from_mantissa(
            rescale_mantissa(&self.mantissa, self.scale, SCALE, context.rounding),
        )
    }

    pub fn scale(&self) -> (r: u32)
        ensures
            r == self@.1,
    {
        self.scale
    }

    pub fn is_zero(&self) -> (r: bool)
        ensures
            r == (self@.0 == 0),
    {
        self.mantissa.is_zero()
    }

    pub fn sign(&self) -> (r: Sign)
        ensures
            r == sign_of(self@.0),
    {
        self.mantissa.sign()
    }

    /// -1, 0 or 1 as the value is below, at or above `rhs`, of the same scale.
    pub fn compare_value(&self, rhs: &Self) -> (r: i8)
        requires
            self@.1 == rhs@.1,
        ensures
            r == -1 <==> self@.0 < rhs@.0,
            r == 0 <==> self@.0 == rhs@.0,
            r == 1 <==> self@.0 > rhs@.0,
    {
        self.mantissa.compare_to(&rhs.mantissa)
    }

    /// -1, 0 or 1 as the magnitude is below, at or above that of `rhs`, of the same scale.
    pub fn compare_magnitude(&self, rhs: &Self) -> (r: i8)
        requires
            self@.1 == rhs@.1,
        ensures
            r == -1 <==> abs(self@.0) < abs(rhs@.0),
            r == 0 <==> abs(self@.0) == abs(rhs@.0),
            r == 1 <==> abs(self@.0) > abs(rhs@.0),
    {
        self.mantissa.magnitude().compare_to(rhs.mantissa.magnitude())
    }

    pub fn abs(&self) -> (r: Self)
        ensures
            r@ == (abs(self@.0) as int, self@.1),
    {
        EvalFixed { mantissa: self.mantissa.abs(), scale: self.scale }
    }

    pub fn negated(&self) -> (r: Self)
        ensures
            r@ == (-self@.0, self@.1),
    {
        EvalFixed { mantissa: self.mantissa.negated(), scale: self.scale }
    }

    pub fn add(&self, rhs: &Self) -> (r: Self)
        requires
            self@.1 == rhs@.1,
        ensures
            r@ == (self@.0 + rhs@.0, self@.1),
    {
        EvalFixed { mantissa: self.mantissa.add(&rhs.mantissa), scale: self.scale }
    }

    pub fn sub(&self, rhs: &Self) -> (r: Self)
        requires
            self@.1 == rhs@.1,
        ensures
            r@ == (self@.0 - rhs@.0, self@.1),
    {
        EvalFixed { mantissa: self.mantissa.sub(&rhs.mantissa), scale: self.scale }
    }

    /// The product, brought back to the scale with ties to even.
    pub fn mul(&self, rhs: &Self) -> (r: Self)
        requires
            self@.1 == rhs@.1,
        ensures
            r@ == (fixed_product(self@.0, rhs@.0, self@.1 as nat), self@.1),
    {
        let ghost a = self@.0;
        let ghost b = rhs@.0;
        let sign = sign_product(self.sign(), rhs.sign());
        proof {
            lemma_sign_product(a, b);
        }
        if sign == Sign::Zero {
            return Self::zero(self.scale);
        }
        let product = self.mantissa.magnitude().mul(rhs.mantissa.magnitude());
        let scaled = round_unsigned_pow10_division(
            &product,
            self.scale,
            sign,
            RoundingMode::HalfEven,
        );
        proof {
            if self.scale == 0 {
                lemma_pow0(10);
                lemma_fundamental_div_mod_converse(product@ as int, 1, product@ as int, 0);
            }
        }
        EvalFixed { mantissa: BigIntCore::from_parts(sign, scaled), scale: self.scale }
    }

    pub fn square(&self) -> (r: Self)
        ensures
            r@ == (fixed_product(self@.0, self@.0, self@.1 as nat), self@.1),
    {
        self.mul(self)
    }

    /// The value times a small integer, exactly.
    pub fn mul_small(&self, multiplier: i64) -> (r: Self)
        requires
            -0xffff_ffff <= multiplier <= 0xffff_ffff,
        ensures
            r@ == (self@.0 * multiplier, self@.1),
    {
        proof {
            lemma_sign_product(self@.0, multiplier as int);
        }
        if multiplier == 0 || self.is_zero() {
            proof {
                lemma_mul_basics(self@.0);
                lemma_mul_basics(multiplier as int);
            }
            return Self::zero(self.scale);
        }
        let multiplier_sign = if multiplier < 0 {
            Sign::Negative
        } else {
            Sign::Positive
        };
        let sign = sign_product(self.sign(), multiplier_sign);
        let small: u32 = if multiplier < 0 {
            (-multiplier) as u32
        } else {
            multiplier as u32
        };
        let magnitude = self.mantissa.magnitude().mul_small(small);
        EvalFixed { mantissa: BigIntCore::from_parts(sign, magnitude), scale: self.scale }
    }

    /// The value times an integer, exactly.
    pub fn mul_int(&self, rhs: &BigIntCore) -> (r: Self)
        ensures
            r@ == (self@.0 * rhs@, self@.1),
    {
        let sign = sign_product(self.sign(), rhs.sign());
        proof {
            lemma_sign_product(self@.0, rhs@);
        }
        if sign == Sign::Zero {
            return Self::zero(self.scale);
        }
        let magnitude = self.mantissa.magnitude().mul(rhs.magnitude());
        EvalFixed { mantissa: BigIntCore::from_parts(sign, magnitude), scale: self.scale }
    }

    /// The quotient at the same scale, rounded under `rounding`; `None` when `rhs` is zero.
    pub fn div(&self, rhs: &Self, rounding: RoundingMode) -> (r: Option<Self>)
        requires
            self@.1 == rhs@.1,
        ensures
            r is None <==> rhs@.0 == 0,
            r matches Some(q) ==> q@ == (
                fixed_quotient(self@.0, rhs@.0, self@.1 as nat, rounding),
                self@.1,
            ),
    {
        let ghost t = ten_pow(self.scale as nat);
        proof {
            lemma_ten_pow_pos(self.scale as nat);
            lemma_sign_product(self@.0, t as int);
        }
        if rhs.is_zero() {
            return None;
        }
        if self.is_zero() {
            proof {
                lemma_mul_basics(t as int);
            }
            return Some(Self::zero(self.scale));
        }
        let sign = sign_product(self.sign(), rhs.sign());
        let scaled_numerator = self.mantissa.magnitude().mul_pow10(self.scale);
        let divisor = rhs.mantissa.magnitude();
        let (quotient, remainder) = scaled_numerator.div_rem(divisor);
        proof {
            lemma_fundamental_div_mod_converse(
                scaled_numerator@ as int,
                divisor@ as int,
                quotient@ as int,
                remainder@ as int,
            );
        }
        let quotient = if should_increment_quotient(
            &quotient,
            &remainder,
            divisor,
            sign,
            rounding,
        ) {
            quotient.add_small(1)
        } else {
            quotient
        };
        Some(EvalFixed { mantissa: BigIntCore::from_parts(sign, quotient), scale: self.scale })
    }

    /// The value over a small positive integer, rounded under `rounding`.
    pub fn div_small(&self, divisor: u32, rounding: RoundingMode) -> (r: Self)
        requires
            divisor != 0,
        ensures
            r@ == (div_rounded(self@.0, divisor as int, rounding), self@.1),
    {
        if self.is_zero() {
            return Self::zero(self.scale);
        }
        let (quotient, remainder) = self.mantissa.magnitude().div_rem_small(divisor);
        let remainder_big = BigUintCore::from_u64(remainder as u64);
        let divisor_big = BigUintCore::from_u64(divisor as u64);
        proof {
            lemma_fundamental_div_mod_converse(
                abs(self@.0) as int,
                divisor as int,
                quotient@ as int,
                remainder as int,
            );
        }
        let quotient = if should_increment_quotient(
            &quotient,
            &remainder_big,
            &divisor_big,
            self.sign(),
            rounding,
        ) {
            quotient.add_small(1)
        } else {
            quotient
        };
        EvalFixed { mantissa: BigIntCore::from_parts(self.sign(), quotient), scale: self.scale }
    }

    /// The square root at the same scale, ties to even; `None` for a negative value.
    pub fn sqrt(&self) -> (r: Option<Self>)
        ensures
            r is None <==> self@.0 < 0,
            r matches Some(v) ==> v@ == (
                rounded_sqrt((self@.0 * ten_pow(self@.1 as nat)) as nat, RoundingMode::HalfEven)
                    as int,
                self@.1,
            ),
    {
        proof {
            lemma_ten_pow_pos(self.scale as nat);
            lemma_sign_product(self@.0, ten_pow(self.scale as nat) as int);
        }
        if self.sign() == Sign::Negative {
            return None;
        }
        if self.is_zero() {
            proof {
                lemma_mul_basics(ten_pow(self.scale as nat) as int);
                lemma_square_is_pow2(0);
                lemma_square_is_pow2(1);
                lemma_floor_root(0, 2, 0);
            }
            return Some(Self::zero(self.scale));
        }
        let radicand = self.mantissa.magnitude().mul_pow10(self.scale);
        let (root, remainder) = radicand.sqrt_rem();
        proof {
            lemma_square_is_pow2(root@ as int);
            lemma_square_is_pow2((root@ + 1) as int);
            lemma_floor_root(radicand@, 2, root@);
        }
        let root = if should_increment_sqrt(&root, &remainder, RoundingMode::HalfEven) {
            root.add_small(1)
        } else {
            root
        };
        Some(EvalFixed { mantissa: BigIntCore::from_parts(Sign::Positive, root), scale: self.scale })
    }

    /// The integer quotient of two values of the same scale, rounded under `rounding`;
    /// `None` when `rhs` is zero.
    pub fn div_to_integer(&self, rhs: &Self, rounding: RoundingMode) -> (r: Option<BigIntCore>)
        requires
            self@.1 == rhs@.1,
        ensures
            r is None <==> rhs@.0 == 0,
            r matches Some(q) ==> q@ == div_rounded(self@.0, rhs@.0, rounding),
    {
        if rhs.is_zero() {
            return None;
        }
        if self.is_zero() {
            return Some(BigIntCore::zero());
        }
        let sign = sign_product(self.sign(), rhs.sign());
        let divisor = rhs.mantissa.magnitude();
        let (quotient, remainder) = self.mantissa.magnitude().div_rem(divisor);
        proof {
            lemma_fundamental_div_mod_converse(
                abs(self@.0) as int,
                divisor@ as int,
                quotient@ as int,
                remainder@ as int,
            );
        }
        let quotient = if should_increment_quotient(
            &quotient,
            &remainder,
            divisor,
            sign,
            rounding,
        ) {
            quotient.add_small(1)
        } else {
            quotient
        };
        Some(BigIntCore::from_parts(sign, quotient))
    }

    /// The smallest positive value at a scale: a mantissa of one.
    pub fn ulp(scale: u32) -> (r: Self)
        ensures
            r@ == (1int, scale),
    {
        EvalFixed { mantissa: BigIntCore::from_parts(Sign::Positive, BigUintCore::one()), scale }
    }

    /// Half a unit in the last place of scale `target_scale`, at scale `eval_scale`; one
    /// unit of `eval_scale` where that scale is not finer.
    pub fn half_target_ulp(eval_scale: u32, target_scale: u32) -> (r: Self)
        ensures
            r@ == (
                if eval_scale <= target_scale {
                    1int
                } else {
                    5 * ten_pow((eval_scale - target_scale - 1) as nat) as int
                },
                eval_scale,
            ),
    {
        if eval_scale <= target_scale {
            return Self::ulp(eval_scale);
        }
        let exponent = eval_scale - target_scale;
        let mut magnitude = BigUintCore::from_u64(5);
        if exponent > 1 {
            magnitude = magnitude.mul_pow10(exponent - 1);
        }
        proof {
            lemma_ten_pow_pos((exponent - 1) as nat);
            if exponent == 1 {
                lemma_pow0(10);
            }
        }
        EvalFixed { mantissa: BigIntCore::from_parts(Sign::Positive, magnitude), scale: eval_scale }
    }

    /// Whether the magnitude is at most that of `limit`, of the same scale.
    pub fn is_within(&self, limit: &Self) -> (r: bool)
        requires
            self@.1 == limit@.1,
        ensures
            r == (abs(self@.0) <= abs(limit@.0)),
    {
        self.compare_magnitude(limit) != 1
    }

    /// The decimal exponent of the value; `None` for zero, and where the digit count does
    /// not fit an `i64`.
    pub fn decimal_exponent(&self) -> (r: Option<i64>)
        ensures
            r is None <==> (self@.0 == 0 || digit_count(abs(self@.0)) > i64::MAX),
            r matches Some(e) ==> e == decimal_exponent_of(self@.0, self@.1 as nat),
    {
        if self.is_zero() {
            return None;
        }
        let digits = self.mantissa.magnitude().to_decimal_chars();
        let len = digits.len();
        if len as u64 > 0x7fff_ffff_ffff_ffff {
            return None;
        }
        proof {
            lemma_digit_count(abs(self@.0));
        }
        let digits_len = len as i64;
        Some(digits_len - 1 - self.scale as i64)
    }

    /// The value with its mantissa divided by `10^exponent` (ties to even), or multiplied by
    /// `10^-exponent`; `None` where that power of ten is beyond `u32::MAX` digits.
    pub fn shift_decimal_exponent(&self, exponent: i64) -> (r: Option<Self>)
        ensures
            r is None <==> (exponent != 0 && self@.0 != 0 && (if exponent > 0 {
                exponent > u32::MAX
            } else {
                -exponent > u32::MAX
            })),
            r matches Some(v) ==> v@ == (shifted(self@.0, exponent as int), self@.1),
    {
        if exponent == 0 || self.is_zero() {
            return Some(self.clone());
        }
        let sign = self.sign();
        if exponent > 0 {
            if exponent > 0xffff_ffff {
                return None;
            }
            let divisor_digits = exponent as u32;
            let magnitude = round_unsigned_pow10_division(
                self.mantissa.magnitude(),
                divisor_digits,
                sign,
                RoundingMode::HalfEven,
            );
            proof {
                lemma_ten_pow_pos(divisor_digits as nat);
            }
            return Some(EvalFixed { mantissa: BigIntCore::from_parts(sign, magnitude), scale: self.scale });
        }
        if exponent < -0xffff_ffff {
            return None;
        }
        let multiplier_digits = (-exponent) as u32;
        proof {
            lemma_ten_pow_pos(multiplier_digits as nat);
            lemma_sign_product(self@.0, ten_pow(multiplier_digits as nat) as int);
        }
        Some(
            EvalFixed {
                mantissa: BigIntCore::from_parts(
                    sign,
                    self.mantissa.magnitude().mul_pow10(multiplier_digits),
                ),
                scale: self.scale,
            },
        )
    }

    /// The decimal literal `literal` at scale `scale` (see `literal_mantissa`).
    pub fn from_decimal_literal(scale: u32, literal: &str) -> (r: Option<Self>)
        ensures
            r is None <==> literal_mantissa(literal@, scale) is None,
            r matches Some(v) ==> literal_mantissa(literal@, scale) == Some(v@.0) && v@.1 == scale,
    {
        let chars = chars_of(literal);
        let len = chars.len();
        let ghost s = chars@;
        proof {
            assert(s.subrange(0, len as int) =~= s);
        }
        let (int_end, frac_start) = match point_bounds(&chars, 0, len) {
            Some(b) => b,
            None => {
                return None;
            },
        };
        if utf8_len_exceeds(&chars, frac_start, len, u32::MAX) {
            return None;
        }
        let integer = copy_range(&chars, 0, int_end);
        let fraction = copy_range(&chars, frac_start, len);
        proof {
            lemma_utf8_len_lower(fraction@);
        }
        let literal_scale = fraction.len() as u32;
        let mut digits = integer;
        let ghost int_chars = digits@;
        for i in 0..fraction.len()
            invariant
                digits@ == int_chars + fraction@.take(i as int),
        {
            digits.push(fraction[i]);
            assert(digits@ =~= int_chars + fraction@.take(i + 1));
        }
        assert(fraction@.take(fraction.len() as int) =~= fraction@);
        let magnitude = match BigUintCore::from_decimal_chars(&digits) {
            Some(m) => m,
            None => {
                return None;
            },
        };
        let mantissa = BigIntCore::from_parts(Sign::Positive, magnitude);
        Some(
            EvalFixed {
                mantissa: rescale_mantissa(&mantissa, literal_scale, scale, RoundingMode::HalfEven),
                scale,
            },
        )
    }

    /// One unit in the last place of the value's scale.
    pub fn convergence_limit(&self) -> (r: Self)
        ensures
            r@ == (1int, self@.1),
    {
        Self::ulp(self.scale)
    }
}

} // verus!
