//! `BigIntCore`: a signed integer of any size, a sign beside a `BigUintCore` magnitude.
use vstd::arithmetic::mul::*;
use vstd::prelude::*;

use crate::uint::BigUintCore;

verus! {

/// The sign of an integer; zero has its own sign.
#[derive(Clone, Copy, Debug, PartialEq, Eq, Structural, PartialOrd, Ord)]
pub enum Sign {
    Negative,
    Zero,
    Positive,
}

/// The sign of a mathematical integer.
pub open spec fn sign_of(x: int) -> Sign {
    if x < 0 {
        Sign::Negative
    } else if x == 0 {
        Sign::Zero
    } else {
        Sign::Positive
    }
}

/// The integer with a given sign and magnitude; the zero sign gives zero.
pub open spec fn signed_value(sign: Sign, magnitude: nat) -> int {
    match sign {
        Sign::Negative => -(magnitude as int),
        Sign::Zero => 0,
        Sign::Positive => magnitude as int,
    }
}

/// The absolute value of a mathematical integer.
pub open spec fn abs(x: int) -> nat {
    if x < 0 {
        (-x) as nat
    } else {
        x as nat
    }
}

/// The sign of a product of two signs.
pub open spec fn spec_sign_product(lhs: Sign, rhs: Sign) -> Sign {
    if lhs == Sign::Zero || rhs == Sign::Zero {
        Sign::Zero
    } else if lhs == rhs {
        Sign::Positive
    } else {
        Sign::Negative
    }
}

/// A signed integer of any size. Its view is the integer it denotes.
#[derive(Debug)]
pub struct BigIntCore {
    sign: Sign,
    magnitude: BigUintCore,
}

impl View for BigIntCore {
    type V = int;

    closed spec fn view(&self) -> int {
        signed_value(self.sign, self.magnitude@)
    }
}

/// The product of two signs.
pub fn sign_product(lhs: Sign, rhs: Sign) -> (r: Sign)
    ensures
        r == spec_sign_product(lhs, rhs),
{
    match (lhs, rhs) {
        (Sign::Zero, _) | (_, Sign::Zero) => Sign::Zero,
        (Sign::Positive, Sign::Positive) | (Sign::Negative, Sign::Negative) => Sign::Positive,
        (Sign::Positive, Sign::Negative) | (Sign::Negative, Sign::Positive) => Sign::Negative,
    }
}

pub proof fn lemma_sign_product(x: int, y: int)
    ensures
        sign_of(x * y) == spec_sign_product(sign_of(x), sign_of(y)),
        abs(x * y) == abs(x) * abs(y),
{
    if x < 0 && y < 0 {
        assert(x * y > 0 && x * y == (-x) * (-y)) by (nonlinear_arith)
            requires
                x < 0,
                y < 0,
        ;
    } else if x < 0 && y > 0 {
        assert(x * y < 0 && -(x * y) == (-x) * y) by (nonlinear_arith)
            requires
                x < 0,
                y > 0,
        ;
    } else if x > 0 && y < 0 {
        assert(x * y < 0 && -(x * y) == x * (-y)) by (nonlinear_arith)
            requires
                x > 0,
                y < 0,
        ;
    } else if x > 0 && y > 0 {
        assert(x * y > 0) by (nonlinear_arith)
            requires
                x > 0,
                y > 0,
        ;
    } else {
        lemma_mul_basics(x);
        lemma_mul_basics(y);
        lemma_mul_basics(abs(x) as int);
        lemma_mul_basics(abs(y) as int);
    }
}

impl BigIntCore {
    /// The sign is zero exactly for a zero magnitude.
    #[verifier::type_invariant]
    spec fn sign_matches(&self) -> bool {
        (self.sign == Sign::Zero) == (self.magnitude@ == 0)
    }

    pub fn zero() -> (r: Self)
        ensures
            r@ == 0,
    {
        BigIntCore { sign: Sign::Zero, magnitude: BigUintCore::zero() }
    }

    pub fn from_i64(value: i64) -> (r: Self)
        ensures
            r@ == value as int,
    {
        if value < 0 {
            let magnitude: u64 = if value == i64::MIN {
                0x8000_0000_0000_0000
            } else {
                (-value) as u64
            };
            Self::from_parts(Sign::Negative, BigUintCore::from_u64(magnitude))
        } else if value == 0 {
            Self::zero()
        } else {
            Self::from_parts(Sign::Positive, BigUintCore::from_u64(value as u64))
        }
    }

    /// The integer with this sign and magnitude; a zero sign or magnitude gives zero.
    pub fn from_parts(sign: Sign, magnitude: BigUintCore) -> (r: Self)
        ensures
            r@ == signed_value(sign, magnitude@),
    {
        if magnitude.is_zero() || sign == Sign::Zero {
            return Self::zero();
        }
        BigIntCore { sign, magnitude }
    }

    pub fn sign(&self) -> (r: Sign)
        ensures
            r == sign_of(self@),
    {
        proof {
            use_type_invariant(self);
        }
        self.sign
    }

    pub fn magnitude(&self) -> (r: &BigUintCore)
        ensures
            r@ == abs(self@),
    {
        proof {
            use_type_invariant(self);
        }
        &self.magnitude
    }

    pub fn is_zero(&self) -> (r: bool)
        ensures
            r == (self@ == 0),
    {
        proof {
            use_type_invariant(self);
        }
        self.sign == Sign::Zero
    }

    pub fn abs(&self) -> (r: Self)
        ensures
            r@ == abs(self@),
    {
        proof {
            use_type_invariant(self);
        }
        Self::from_parts(Sign::Positive, self.magnitude.clone())
    }

    pub fn negated(&self) -> (r: Self)
        ensures
            r@ == -self@,
    {
        proof {
            use_type_invariant(self);
        }
        match self.sign {
            Sign::Negative => Self::from_parts(Sign::Positive, self.magnitude.clone()),
            Sign::Zero => Self::zero(),
            Sign::Positive => Self::from_parts(Sign::Negative, self.magnitude.clone()),
        }
    }

    pub fn add(&self, rhs: &Self) -> (r: Self)
        ensures
            r@ == self@ + rhs@,
    {
        proof {
            use_type_invariant(self);
            use_type_invariant(rhs);
        }
        match (self.sign, rhs.sign) {
            (Sign::Zero, _) => rhs.clone(),
            (_, Sign::Zero) => self.clone(),
            (Sign::Positive, Sign::Positive) => {
                Self::from_parts(Sign::Positive, self.magnitude.add(&rhs.magnitude))
            },
            (Sign::Negative, Sign::Negative) => {
                Self::from_parts(Sign::Negative, self.magnitude.add(&rhs.magnitude))
            },
            (Sign::Positive, Sign::Negative) => self.sub_magnitude(rhs),
            (Sign::Negative, Sign::Positive) => rhs.sub_magnitude(self),
        }
    }

    pub fn sub(&self, rhs: &Self) -> (r: Self)
        ensures
            r@ == self@ - rhs@,
    {
        self.add(&rhs.negated())
    }

    pub fn mul(&self, rhs: &Self) -> (r: Self)
        ensures
            r@ == self@ * rhs@,
    {
        proof {
            use_type_invariant(self);
            use_type_invariant(rhs);
            lemma_sign_product(self@, rhs@);
        }
        match (self.sign, rhs.sign) {
            (Sign::Zero, _) | (_, Sign::Zero) => Self::zero(),
            (Sign::Positive, Sign::Positive) | (Sign::Negative, Sign::Negative) => {
                Self::from_parts(Sign::Positive, self.magnitude.mul(&rhs.magnitude))
            },
            (Sign::Positive, Sign::Negative) | (Sign::Negative, Sign::Positive) => {
                Self::from_parts(Sign::Negative, self.magnitude.mul(&rhs.magnitude))
            },
        }
    }

    /// The sum of two integers of opposite signs: the difference of their magnitudes,
    /// with the sign of the larger.
    fn sub_magnitude(&self, rhs: &Self) -> (r: Self)
        requires
            self@ != 0,
            rhs@ != 0,
            sign_of(self@) != sign_of(rhs@),
        ensures
            r@ == self@ + rhs@,
    {
        proof {
            use_type_invariant(self);
            use_type_invariant(rhs);
        }
        let order = self.magnitude.compare_to(&rhs.magnitude);
        if order == 1 {
            Self::from_parts(self.sign, self.magnitude.sub(&rhs.magnitude))
        } else if order == 0 {
            Self::zero()
        } else {
            Self::from_parts(rhs.sign, rhs.magnitude.sub(&self.magnitude))
        }
    }
}

impl Clone for BigIntCore {
    fn clone(&self) -> (r: Self)
        ensures
            r@ == self@,
    {
        proof {
            use_type_invariant(self);
        }
        BigIntCore { sign: self.sign, magnitude: self.magnitude.clone() }
    }
}

impl Default for BigIntCore {
    fn default() -> (r: Self)
        ensures
            r@ == 0,
    {
        Self::zero()
    }
}

impl BigIntCore {
    /// -1, 0 or 1 as `self` is less than, equal to or greater than `other`.
    pub(crate) fn compare_to(&self, other: &Self) -> (r: i8)
        ensures
            r == -1 <==> self@ < other@,
            r == 0 <==> self@ == other@,
            r == 1 <==> self@ > other@,
    {
        proof {
            use_type_invariant(self);
            use_type_invariant(other);
        }
        match (self.sign, other.sign) {
            (Sign::Negative, Sign::Negative) => other.magnitude.compare_to(&self.magnitude),
            (Sign::Positive, Sign::Positive) => self.magnitude.compare_to(&other.magnitude),
            (Sign::Zero, Sign::Zero) => 0,
            (Sign::Negative, _) => -1,
            (Sign::Zero, Sign::Positive) => -1,
            (Sign::Zero, Sign::Negative) => 1,
            (Sign::Positive, _) => 1,
        }
    }
}

} // verus!
