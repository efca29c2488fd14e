//! Fractional decimal digits of a scaled magnitude, most significant first, and the
//! rounding decisions taken from them.
use vstd::arithmetic::div_mod::*;
use vstd::arithmetic::mul::*;
use vstd::arithmetic::power::*;
use vstd::prelude::*;

use crate::rounding::{lemma_ten_pow_add, lemma_ten_pow_pos, ten_pow};
use crate::uint::BigUintCore;

verus! {

/// The number that a sequence of decimal digits denotes, most significant first.
pub open spec fn digits_value(ds: Seq<u8>) -> nat
    decreases ds.len(),
{
    if ds.len() == 0 {
        0
    } else {
        digits_value(ds.drop_last()) * 10 + (ds.last() as nat)
    }
}

/// Every entry is a decimal digit.
pub open spec fn all_decimal(ds: Seq<u8>) -> bool {
    forall|i: int| 0 <= i < ds.len() ==> #[trigger] ds[i] < 10
}

/// A leading digit weighs ten to the number of digits after it.
pub proof fn lemma_digits_prepend(x: u8, t: Seq<u8>)
    ensures
        digits_value(seq![x] + t) == x * ten_pow(t.len()) + digits_value(t),
    decreases t.len(),
{
    if t.len() == 0 {
        assert(seq![x] + t =~= seq![x]);
        assert(seq![x].drop_last() =~= Seq::<u8>::empty());
        lemma_pow0(10);
        assert(digits_value(seq![x]) == digits_value(Seq::<u8>::empty()) * 10 + (x as nat));
        assert(ten_pow(t.len()) == 1);
        lemma_mul_basics(x as int);
        assert(digits_value(t) == 0);
    } else {
        let s = seq![x] + t;
        let td = t.drop_last();
        lemma_digits_prepend(x, td);
        assert(s.drop_last() =~= seq![x] + td);
        assert(s.last() == t.last());
        lemma_ten_pow_add((t.len() - 1) as nat, 1);
        lemma_pow1(10);
        assert(((t.len() - 1) as nat + 1) == t.len());
        let p = ten_pow((t.len() - 1) as nat);
        assert(ten_pow(t.len()) == p * 10);
        assert(digits_value(s) == digits_value(seq![x] + td) * 10 + (t.last() as nat));
        assert(digits_value(t) == digits_value(td) * 10 + (t.last() as nat));
        assert((x * p + digits_value(td)) * 10 + t.last() == x * (p * 10) + digits_value(td) * 10
            + t.last()) by (nonlinear_arith);
        assert(x * ten_pow(t.len()) == x * (p * 10));
    }
}

/// Decimal digits denote less than ten to their number.
pub proof fn lemma_digits_bound(ds: Seq<u8>)
    requires
        all_decimal(ds),
    ensures
        digits_value(ds) < ten_pow(ds.len()),
    decreases ds.len(),
{
    if ds.len() == 0 {
        lemma_pow0(10);
    } else {
        assert(all_decimal(ds.drop_last())) by {
            assert forall|i: int| 0 <= i < ds.drop_last().len() implies #[trigger] ds.drop_last()[i]
                < 10 by {
                assert(ds.drop_last()[i] == ds[i]);
            }
        }
        lemma_digits_bound(ds.drop_last());
        assert(ds.last() < 10);
        lemma_ten_pow_add((ds.len() - 1) as nat, 1);
        lemma_pow1(10);
        assert(((ds.len() - 1) as nat + 1) == ds.len());
        let p = ten_pow((ds.len() - 1) as nat);
        assert(digits_value(ds.drop_last()) * 10 + ds.last() < p * 10) by (nonlinear_arith)
            requires
                digits_value(ds.drop_last()) < p,
                ds.last() < 10,
        ;
    }
}

/// Digits denote zero exactly when every digit is zero.
pub proof fn lemma_digits_zero(ds: Seq<u8>)
    ensures
        (digits_value(ds) == 0) == (forall|i: int| 0 <= i < ds.len() ==> #[trigger] ds[i] == 0),
    decreases ds.len(),
{
    if ds.len() > 0 {
        lemma_digits_zero(ds.drop_last());
        if digits_value(ds) == 0 {
            assert forall|i: int| 0 <= i < ds.len() implies #[trigger] ds[i] == 0 by {
                if i < ds.len() - 1 {
                    assert(ds.drop_last()[i] == ds[i]);
                }
            }
        } else {
            if forall|i: int| 0 <= i < ds.len() ==> #[trigger] ds[i] == 0 {
                assert forall|i: int| 0 <= i < ds.drop_last().len() implies #[trigger] ds.drop_last()[i]
                    == 0 by {
                    assert(ds.drop_last()[i] == ds[i]);
                }
                assert(ds[ds.len() - 1] == 0);
            }
        }
    }
}

/// Whether the fraction that the digits denote is at least one half.
pub fn is_half_up(fractional_digits: &Vec<u8>) -> (r: bool)
    requires
        all_decimal(fractional_digits@),
    ensures
        r == (fractional_digits.len() > 0 && 2 * digits_value(fractional_digits@) >= ten_pow(
            fractional_digits.len() as nat,
        )),
{
    if fractional_digits.len() == 0 {
        return false;
    }
    proof {
        lemma_half_decision(fractional_digits@);
    }
    fractional_digits[0] >= 5
}

/// Whether the fraction is more than one half, or exactly one half with an odd integer part.
pub fn is_half_even(integer: &BigUintCore, fractional_digits: &Vec<u8>) -> (r: bool)
    requires
        all_decimal(fractional_digits@),
    ensures
        r == (fractional_digits.len() > 0 && {
            let f = 2 * digits_value(fractional_digits@);
            let p = ten_pow(fractional_digits.len() as nat);
            f > p || (f == p && integer@ % 2 == 1)
        }),
{
    if fractional_digits.len() == 0 {
        return false;
    }
    let ghost ds = fractional_digits@;
    proof {
        lemma_half_decision(ds);
    }
    let first = fractional_digits[0];
    if first < 5 {
        false
    } else if first > 5 {
        true
    } else {
        let mut any_nonzero = false;
        let mut i: usize = 1;
        while i < fractional_digits.len()
            invariant
                ds == fractional_digits@,
                1 <= i <= ds.len(),
                any_nonzero == (exists|k: int| 1 <= k < i && ds[k] != 0),
            decreases ds.len() - i,
        {
            if fractional_digits[i] != 0 {
                any_nonzero = true;
            }
            i = i + 1;
        }
        proof {
            lemma_digits_zero(ds.skip(1));
            if any_nonzero {
                let k = choose|k: int| 1 <= k < ds.len() && ds[k] != 0;
                assert(ds.skip(1)[k - 1] != 0);
            } else {
                assert forall|j: int| 0 <= j < ds.skip(1).len() implies #[trigger] ds.skip(1)[j]
                    == 0 by {
                    assert(ds.skip(1)[j] == ds[j + 1]);
                }
            }
        }
        if any_nonzero {
            true
        } else {
            let parity = integer.div_rem_small(2).1;
            proof {
                lemma_fundamental_div_mod(integer@ as int, 2);
            }
            parity == 1
        }
    }
}

/// Twice the fraction against one: decided by the leading digit, and on a leading five
/// by the rest.
proof fn lemma_half_decision(ds: Seq<u8>)
    requires
        ds.len() > 0,
        all_decimal(ds),
    ensures
        ({
            let f = 2 * digits_value(ds);
            let p = ten_pow(ds.len() as nat);
            let rest = digits_value(ds.skip(1));
            &&& ds[0] < 5 ==> f < p
            &&& ds[0] > 5 ==> f > p
            &&& ds[0] == 5 ==> (f > p <==> rest > 0) && (f == p <==> rest == 0)
        }),
{
    let n = ds.len();
    assert(ds =~= seq![ds[0]] + ds.skip(1));
    lemma_digits_prepend(ds[0], ds.skip(1));
    assert(all_decimal(ds.skip(1))) by {
        assert forall|i: int| 0 <= i < ds.skip(1).len() implies #[trigger] ds.skip(1)[i] < 10 by {
            assert(ds.skip(1)[i] == ds[i + 1]);
        }
    }
    lemma_digits_bound(ds.skip(1));
    lemma_ten_pow_add((n - 1) as nat, 1);
    lemma_pow1(10);
    assert(((n - 1) as nat + 1) == n);
    let p = ten_pow((n - 1) as nat);
    let rest = digits_value(ds.skip(1));
    let d0 = ds[0] as nat;
    assert(digits_value(ds) == d0 * p + rest);
    assert(ten_pow(n as nat) == p * 10);
    lemma_ten_pow_pos((n - 1) as nat);
    if d0 == 5 {
        assert(d0 * p == 5 * p);
        let f = 2 * digits_value(ds);
        let q = ten_pow(n as nat);
        assert((f > q <==> rest > 0) && (f == q <==> rest == 0)) by (nonlinear_arith)
            requires
                f == 10 * p + 2 * rest,
                q == p * 10,
        ;
    }
    if d0 < 5 {
        assert(2 * (d0 * p + rest) < p * 10) by (nonlinear_arith)
            requires
                d0 < 5,
                rest < p,
        ;
    } else if d0 > 5 {
        assert(2 * (d0 * p + rest) > p * 10) by (nonlinear_arith)
            requires
                d0 > 5,
                rest >= 0,
                p >= 1,
        ;
    }
}

impl BigUintCore {
    /// The integer part and the `scale` fractional digits of `self / 10^scale`, and
    /// whether any of those digits is nonzero.
    pub fn integer_parts(&self, scale: u32) -> (r: (BigUintCore, Vec<u8>, bool))
        ensures
            r.0@ == self@ / ten_pow(scale as nat),
            r.1.len() == scale,
            all_decimal(r.1@),
            digits_value(r.1@) == self@ % ten_pow(scale as nat),
            r.2 == (self@ % ten_pow(scale as nat) != 0),
    {
        let n = scale as usize;
        let mut digits: Vec<u8> = Vec::new();
        for k in 0..n
            invariant
                digits.len() == k,
                forall|j: int| 0 <= j < k ==> digits@[j] == 0,
        {
            digits.push(0);
        }
        let mut quotient = self.clone();
        let mut has_fraction = false;
        proof {
            assert(digits@.skip(n as int) =~= Seq::<u8>::empty());
            lemma_pow0(10);
            assert(ten_pow(0) == 1);
            assert(quotient@ * ten_pow(0) == quotient@);
            assert(digits_value(digits@.skip(n - 0)) == 0);
        }
        for i in 0..n
            invariant
                n == scale,
                digits.len() == n,
                all_decimal(digits@),
                self@ == quotient@ * ten_pow(i as nat) + digits_value(digits@.skip(n - i)),
                has_fraction == (digits_value(digits@.skip(n - i)) != 0),
        {
            let (next, remainder) = quotient.div_rem_small(10);
            let ghost old_digits = digits@;
            let ghost old_q = quotient@;
            let pos = n - 1 - i;
            digits.set(pos, remainder as u8);
            has_fraction = has_fraction || remainder != 0;
            quotient = next;
            proof {
                let t = old_digits.skip(n - i);
                assert(digits@.skip(n - i) =~= t);
                assert(digits@.skip(pos as int) =~= seq![remainder as u8] + t);
                lemma_digits_prepend(remainder as u8, t);
                lemma_ten_pow_add(i as nat, 1);
                lemma_pow1(10);
                let p = ten_pow(i as nat);
                lemma_ten_pow_pos(i as nat);
                assert(old_q * p == next@ * (p * 10) + remainder * p) by (nonlinear_arith)
                    requires
                        old_q == next@ * 10 + remainder,
                ;
                assert((remainder * p + digits_value(t) == 0) == (remainder == 0 && digits_value(t)
                    == 0)) by (nonlinear_arith)
                    requires
                        p >= 1,
                ;
                assert(all_decimal(digits@)) by {
                    assert forall|j: int| 0 <= j < digits@.len() implies #[trigger] digits@[j]
                        < 10 by {
                        if j != pos {
                            assert(digits@[j] == old_digits[j]);
                        }
                    }
                }
                assert((n - (i + 1)) as int == pos as int);
            }
        }
        proof {
            assert(digits@.skip(0) =~= digits@);
            lemma_digits_bound(digits@);
            lemma_ten_pow_pos(scale as nat);
            lemma_fundamental_div_mod_converse(
                self@ as int,
                ten_pow(scale as nat) as int,
                quotient@ as int,
                digits_value(digits@) as int,
            );
        }
        (quotient, digits, has_fraction)
    }
}

} // verus!
