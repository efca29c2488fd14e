//! `BigUintCore`: an unsigned arbitrary-precision integer on 64-bit limbs,
//! stored inline while it fits one limb and on the heap otherwise.
use vstd::arithmetic::div_mod::*;
use vstd::arithmetic::mul::*;
use vstd::prelude::*;

use vstd::arithmetic::power::*;
use vstd::arithmetic::power2::*;
use vstd::std_specs::bits::u64_leading_zeros;

use crate::bits::{
    lemma_leading_zeros_bounds,
    lemma_pow_base_strict,
    lemma_pow2_increases_nat,
    lemma_shl_limb,
    lemma_shr1_limb,
    lemma_u128_join,
    lemma_u128_split,
    lemma_u32_halve,
    lemma_weight_is_pow2,
};
use crate::limbs::{
    lemma_prefix_full,
    lemma_prefix_step,
    lemma_prefix_zero,
    lemma_value_bound,
    lemma_value_compare_at,
    lemma_value_compare_len,
    lemma_value_drop_zero,
    lemma_value_head,
    lemma_value_zeros,
    lemma_weight_add,
    lemma_weight_mono,
    lemma_value_lower,
    lemma_value_push,
    lemma_value_single,
    lemma_value_split,
    lemma_value_take_all,
    lemma_value_take_step,
    lemma_value_update,
    lemma_weight_pos,
    lemma_weight_succ,
    limb_at,
    limb_base,
    limbs_normalized,
    limbs_value,
    prefix_value,
    weight,
};

verus! {

#[derive(Debug)]
enum Repr {
    Inline(u64),
    Heap(Vec<u64>),
}

/// An unsigned integer of any size. Its view is the number it denotes.
#[derive(Debug)]
pub struct BigUintCore {
    repr: Repr,
}

impl View for BigUintCore {
    type V = nat;

    closed spec fn view(&self) -> nat {
        limbs_value(self.limbs_seq())
    }
}

impl BigUintCore {
    /// The little-endian limbs, without high zero limbs.
    spec fn limbs_seq(&self) -> Seq<u64> {
        match self.repr {
            Repr::Inline(v) => if v == 0 {
                Seq::empty()
            } else {
                seq![v]
            },
            Repr::Heap(v) => v@,
        }
    }

    /// Heap storage is used only for two limbs or more, without a zero top limb.
    #[verifier::type_invariant]
    spec fn well_formed(&self) -> bool {
        match self.repr {
            Repr::Inline(_) => true,
            Repr::Heap(v) => v.len() >= 2 && v@.last() != 0,
        }
    }

    proof fn lemma_normalized(&self)
        requires
            self.well_formed(),
        ensures
            limbs_normalized(self.limbs_seq()),
            self@ == limbs_value(self.limbs_seq()),
            self@ < weight(self.limbs_seq().len()),
            self.limbs_seq().len() > 0 ==> self@ >= weight((self.limbs_seq().len() - 1) as nat),
            self.limbs_seq().len() == 0 <==> self@ == 0,
    {
        lemma_value_bound(self.limbs_seq());
        if self.limbs_seq().len() > 0 {
            lemma_value_lower(self.limbs_seq());
            lemma_weight_pos((self.limbs_seq().len() - 1) as nat);
        }
    }

    pub fn zero() -> (r: Self)
        ensures
            r@ == 0,
    {
        BigUintCore { repr: Repr::Inline(0) }
    }

    pub fn one() -> (r: Self)
        ensures
            r@ == 1,
    {
        let r = BigUintCore { repr: Repr::Inline(1) };
        proof {
            lemma_value_single(1);
        }
        r
    }

    pub fn from_u64(value: u64) -> (r: Self)
        ensures
            r@ == value as nat,
    {
        let r = BigUintCore { repr: Repr::Inline(value) };
        proof {
            lemma_value_single(value);
        }
        r
    }

    pub fn is_zero(&self) -> (r: bool)
        ensures
            r == (self@ == 0),
    {
        proof {
            use_type_invariant(self);
            self.lemma_normalized();
        }
        match &self.repr {
            Repr::Inline(v) => *v == 0,
            Repr::Heap(_) => false,
        }
    }

    /// The number of limbs without high zero limbs.
    fn limb_count(&self) -> (n: usize)
        ensures
            n == self.limbs_seq().len(),
    {
        match &self.repr {
            Repr::Inline(v) => if *v == 0 {
                0
            } else {
                1
            },
            Repr::Heap(v) => v.len(),
        }
    }

    fn limb(&self, i: usize) -> (x: u64)
        requires
            i < self.limbs_seq().len(),
        ensures
            x == self.limbs_seq()[i as int],
    {
        match &self.repr {
            Repr::Inline(v) => *v,
            Repr::Heap(v) => v[i],
        }
    }

    /// The limb at `i`, or zero above the top limb.
    fn limb_or_zero(&self, i: usize) -> (x: u64)
        ensures
            x == limb_at(self.limbs_seq(), i as int),
    {
        if i < self.limb_count() {
            self.limb(i)
        } else {
            0
        }
    }

    fn limbs_to_vec(&self) -> (v: Vec<u64>)
        ensures
            v@ == self.limbs_seq(),
    {
        let n = self.limb_count();
        let mut v: Vec<u64> = Vec::new();
        for i in 0..n
            invariant
                n == self.limbs_seq().len(),
                v@ == self.limbs_seq().take(i as int),
        {
            v.push(self.limb(i));
            assert(v@ =~= self.limbs_seq().take(i + 1));
        }
        assert(v@ =~= self.limbs_seq());
        v
    }

    /// Builds a value from limbs, dropping high zero limbs.
    fn from_limbs(limbs: Vec<u64>) -> (r: Self)
        ensures
            r@ == limbs_value(limbs@),
    {
        let mut limbs = limbs;
        let ghost given = limbs@;
        while limbs.len() > 0 && limbs[limbs.len() - 1] == 0
            invariant
                limbs_value(limbs@) == limbs_value(given),
            decreases limbs.len(),
        {
            proof {
                lemma_value_drop_zero(limbs@);
            }
            limbs.pop();
        }
        if limbs.len() == 0 {
            Self::zero()
        } else if limbs.len() == 1 {
            proof {
                assert(limbs@ =~= seq![limbs[0]]);
                lemma_value_single(limbs[0]);
            }
            Self::from_u64(limbs[0])
        } else {
            BigUintCore { repr: Repr::Heap(limbs) }
        }
    }
}

impl BigUintCore {
    /// A copy with the same limbs.
    fn copy(&self) -> (r: Self)
        ensures
            r.limbs_seq() == self.limbs_seq(),
            r@ == self@,
    {
        proof {
            use_type_invariant(self);
        }
        match &self.repr {
            Repr::Inline(v) => BigUintCore { repr: Repr::Inline(*v) },
            Repr::Heap(v) => {
                let n = v.len();
                let mut out: Vec<u64> = Vec::new();
                for i in 0..n
                    invariant
                        n == v.len(),
                        out@ == v@.take(i as int),
                {
                    out.push(v[i]);
                    assert(out@ =~= v@.take(i + 1));
                }
                assert(out@ =~= v@);
                BigUintCore { repr: Repr::Heap(out) }
            },
        }
    }

    pub fn add(&self, rhs: &Self) -> (r: Self)
        ensures
            r@ == self@ + rhs@,
    {
        proof {
            use_type_invariant(self);
            use_type_invariant(rhs);
        }
        let ghost a = self.limbs_seq();
        let ghost b = rhs.limbs_seq();
        let lhs_len = self.limb_count();
        let rhs_len = rhs.limb_count();
        let max_len = if lhs_len >= rhs_len {
            lhs_len
        } else {
            rhs_len
        };
        let mut out: Vec<u64> = Vec::new();
        let mut carry: u128 = 0;
        proof {
            lemma_prefix_zero(a);
            lemma_prefix_zero(b);
            assert(weight(0) == 1);
        }
        for index in 0..max_len
            invariant
                a == self.limbs_seq(),
                b == rhs.limbs_seq(),
                out.len() == index,
                carry <= 1,
                limbs_value(out@) + carry * weight(index as nat) == prefix_value(a, index as int)
                    + prefix_value(b, index as int),
        {
            let lhs = self.limb_or_zero(index) as u128;
            let rhs_limb = rhs.limb_or_zero(index) as u128;
            let sum = lhs + rhs_limb + carry;
            proof {
                let w = weight(index as nat);
                lemma_u128_split(sum);
                lemma_value_push(out@, sum as u64);
                lemma_prefix_step(a, index as int);
                lemma_prefix_step(b, index as int);
                lemma_weight_succ(index as nat);
                let lo = (sum as u64) as nat;
                let hi = (sum >> 64u128) as nat;
                assert(lo * w + hi * (w * limb_base()) == (lhs + rhs_limb + carry) * w)
                    by (nonlinear_arith)
                    requires
                        sum as nat == lo + hi * limb_base(),
                        sum == lhs + rhs_limb + carry,
                ;
                assert((lhs + rhs_limb + carry) * w == lhs * w + rhs_limb * w + carry * w)
                    by (nonlinear_arith);
            }
            out.push(sum as u64);
            carry = sum >> 64;
        }
        proof {
            lemma_prefix_full(a, max_len as int);
            lemma_prefix_full(b, max_len as int);
        }
        if carry != 0 {
            proof {
                lemma_value_push(out@, carry as u64);
            }
            out.push(carry as u64);
        }
        Self::from_limbs(out)
    }

    /// Subtraction of a value not above `self`.
    pub fn sub(&self, rhs: &Self) -> (r: Self)
        requires
            self@ >= rhs@,
        ensures
            r@ == self@ - rhs@,
    {
        proof {
            use_type_invariant(self);
            use_type_invariant(rhs);
            self.lemma_normalized();
            rhs.lemma_normalized();
        }
        let ghost a = self.limbs_seq();
        let ghost b = rhs.limbs_seq();
        let lhs_len = self.limb_count();
        let mut out: Vec<u64> = Vec::new();
        let mut borrow = false;
        proof {
            lemma_prefix_zero(a);
            lemma_prefix_zero(b);
        }
        for index in 0..lhs_len
            invariant
                a == self.limbs_seq(),
                b == rhs.limbs_seq(),
                lhs_len == a.len(),
                out.len() == index,
                limbs_value(out@) + prefix_value(b, index as int) == prefix_value(a, index as int)
                    + (if borrow {
                    weight(index as nat)
                } else {
                    0
                }),
        {
            let lhs = self.limb(index) as u128;
            let rhs_limb = rhs.limb_or_zero(index) as u128;
            let borrow_value: u128 = if borrow {
                1
            } else {
                0
            };
            let ghost w = weight(index as nat);
            proof {
                lemma_prefix_step(a, index as int);
                lemma_prefix_step(b, index as int);
                lemma_weight_succ(index as nat);
                assert(limb_at(a, index as int) == lhs);
            }
            if lhs >= rhs_limb + borrow_value {
                let d = (lhs - rhs_limb - borrow_value) as u64;
                proof {
                    lemma_value_push(out@, d);
                    assert(d * w + rhs_limb * w == lhs * w + 0 - borrow_value * w)
                        by (nonlinear_arith)
                        requires
                            d == lhs - rhs_limb - borrow_value,
                    ;
                }
                out.push(d);
                borrow = false;
            } else {
                proof {
                    assert(1u128 << 64u128 == 0x1_0000_0000_0000_0000u128) by (bit_vector);
                }
                let d = ((1u128 << 64u128) + lhs - rhs_limb - borrow_value) as u64;
                proof {
                    lemma_value_push(out@, d);
                    assert(d * w + rhs_limb * w == lhs * w + w * limb_base() - borrow_value * w)
                        by (nonlinear_arith)
                        requires
                            d == limb_base() + lhs - rhs_limb - borrow_value,
                    ;
                }
                out.push(d);
                borrow = true;
            }
        }
        proof {
            if b.len() > a.len() {
                lemma_value_compare_len(a, b);
            }
            lemma_prefix_full(a, lhs_len as int);
            lemma_prefix_full(b, lhs_len as int);
            lemma_value_bound(out@);
        }
        Self::from_limbs(out)
    }

    pub fn mul_small(&self, rhs: u32) -> (r: Self)
        ensures
            r@ == self@ * rhs,
    {
        proof {
            use_type_invariant(self);
        }
        if self.is_zero() || rhs == 0 {
            proof {
                lemma_mul_basics(self@ as int);
            }
            return Self::zero();
        }
        if rhs == 1 {
            proof {
                lemma_mul_basics(self@ as int);
            }
            return self.copy();
        }
        let ghost a = self.limbs_seq();
        let factor = rhs as u128;
        let n = self.limb_count();
        let mut out: Vec<u64> = Vec::new();
        let mut carry: u128 = 0;
        proof {
            assert(a.take(0) =~= Seq::<u64>::empty());
            lemma_mul_basics(factor as int);
        }
        for i in 0..n
            invariant
                a == self.limbs_seq(),
                n == a.len(),
                factor == rhs,
                out.len() == i,
                carry < factor,
                limbs_value(out@) + carry * weight(i as nat) == limbs_value(a.take(i as int))
                    * factor,
        {
            let limb = self.limb(i) as u128;
            proof {
                assert(limb * factor + carry <= 0xffff_ffff_ffff_ffffu128 * 0xffff_ffffu128
                    + 0xffff_ffffu128) by (nonlinear_arith)
                    requires
                        limb <= 0xffff_ffff_ffff_ffffu128,
                        factor <= 0xffff_ffffu128,
                        carry < factor,
                ;
            }
            let product = limb * factor + carry;
            proof {
                let w = weight(i as nat);
                lemma_u128_split(product);
                lemma_value_push(out@, product as u64);
                lemma_value_take_step(a, i as int);
                lemma_weight_succ(i as nat);
                let lo = (product as u64) as nat;
                let hi = (product >> 64u128) as nat;
                assert(lo * w + hi * (w * limb_base()) == product * w) by (nonlinear_arith)
                    requires
                        product as nat == lo + hi * limb_base(),
                ;
                assert(product * w == (limb * w) * factor + carry * w) by (nonlinear_arith)
                    requires
                        product == limb * factor + carry,
                ;
                assert(hi < factor) by (nonlinear_arith)
                    requires
                        product as nat == lo + hi * limb_base(),
                        product == limb * factor + carry,
                        limb < limb_base(),
                        carry < factor,
                ;
                let pre = limbs_value(a.take(i as int));
                assert((pre + limb * w) * factor == pre * factor + (limb * w) * factor)
                    by (nonlinear_arith);
            }
            out.push(product as u64);
            carry = product >> 64;
        }
        proof {
            lemma_value_take_all(a);
        }
        if carry != 0 {
            proof {
                lemma_value_push(out@, carry as u64);
            }
            out.push(carry as u64);
        }
        Self::from_limbs(out)
    }

    pub fn add_small(&self, rhs: u32) -> (r: Self)
        ensures
            r@ == self@ + rhs,
    {
        proof {
            use_type_invariant(self);
        }
        if rhs == 0 {
            return self.copy();
        }
        let ghost a = self.limbs_seq();
        let mut out = self.limbs_to_vec();
        if out.len() == 0 {
            proof {
                lemma_value_single(rhs as u64);
                assert(out@.push(rhs as u64) =~= seq![rhs as u64]);
            }
            out.push(rhs as u64);
            return Self::from_limbs(out);
        }
        let mut carry = rhs as u128;
        let mut i: usize = 0;
        proof {
            assert(out@.take(0) =~= Seq::<u64>::empty());
            assert(a.take(0) =~= Seq::<u64>::empty());
            assert(weight(0) == 1);
        }
        while i < out.len()
            invariant
                a == self.limbs_seq(),
                out.len() == a.len(),
                i <= out.len(),
                out@.skip(i as int) == a.skip(i as int),
                1 <= carry <= rhs,
                limbs_value(out@.take(i as int)) + carry * weight(i as nat) == limbs_value(
                    a.take(i as int),
                ) + rhs,
            decreases out.len() - i,
        {
            let sum = out[i] as u128 + carry;
            let ghost old_out = out@;
            proof {
                let w = weight(i as nat);
                lemma_u128_split(sum);
                assert(old_out[i as int] == a[i as int]) by {
                    assert(old_out.skip(i as int)[0] == a.skip(i as int)[0]);
                }
                lemma_value_take_step(a, i as int);
                lemma_weight_succ(i as nat);
                let lo = (sum as u64) as nat;
                let hi = (sum >> 64u128) as nat;
                assert(lo * w + hi * (w * limb_base()) == (a[i as int] + carry) * w)
                    by (nonlinear_arith)
                    requires
                        sum as nat == lo + hi * limb_base(),
                        sum == a[i as int] + carry,
                ;
                assert((a[i as int] + carry) * w == a[i as int] * w + carry * w)
                    by (nonlinear_arith);
                assert(hi <= 1) by (nonlinear_arith)
                    requires
                        sum as nat == lo + hi * limb_base(),
                        sum == a[i as int] + carry,
                        a[i as int] < limb_base(),
                        carry <= rhs,
                        rhs < limb_base(),
                ;
            }
            out.set(i, sum as u64);
            carry = sum >> 64;
            proof {
                assert(out@.take(i as int) =~= old_out.take(i as int));
                lemma_value_take_step(out@, i as int);
                assert(out@.skip(i + 1) =~= a.skip(i + 1)) by {
                    assert forall|j: int| 0 <= j < out@.skip(i + 1).len() implies #[trigger] out@.skip(
                        i + 1,
                    )[j] == a.skip(i + 1)[j] by {
                        assert(old_out.skip(i as int)[j + 1] == a.skip(i as int)[j + 1]);
                    }
                }
            }
            if carry == 0 {
                proof {
                    lemma_value_split(out@, i + 1);
                    lemma_value_split(a, i + 1);
                }
                return Self::from_limbs(out);
            }
            i += 1;
        }
        proof {
            lemma_value_take_all(out@);
            lemma_value_take_all(a);
            lemma_value_push(out@, carry as u64);
        }
        out.push(carry as u64);
        Self::from_limbs(out)
    }
}

impl BigUintCore {
    /// A vector of `n` zero limbs.
    fn zero_limbs(n: usize) -> (v: Vec<u64>)
        ensures
            v.len() == n,
            forall|i: int| 0 <= i < n ==> v@[i] == 0,
            limbs_value(v@) == 0,
    {
        let mut v: Vec<u64> = Vec::new();
        for i in 0..n
            invariant
                v.len() == i,
                forall|k: int| 0 <= k < i ==> v@[k] == 0,
        {
            v.push(0);
        }
        proof {
            lemma_value_zeros(v@);
        }
        v
    }

    pub fn mul(&self, rhs: &Self) -> (r: Self)
        ensures
            r@ == self@ * rhs@,
    {
        proof {
            use_type_invariant(self);
            use_type_invariant(rhs);
        }
        if self.is_zero() || rhs.is_zero() {
            proof {
                lemma_mul_basics(self@ as int);
                lemma_mul_basics(rhs@ as int);
            }
            return Self::zero();
        }
        let ghost a = self.limbs_seq();
        let ghost b = rhs.limbs_seq();
        let ghost bv = limbs_value(b);
        let la = self.limb_count();
        let lb = rhs.limb_count();
        let mut out = Self::zero_limbs(la);
        let mut tail = Self::zero_limbs(lb);
        proof {
            lemma_value_zeros(out@ + tail@);
        }
        out.append(&mut tail);
        let ghost n = (la + lb) as nat;
        proof {
            assert(a.take(0) =~= Seq::<u64>::empty());
            lemma_mul_basics(bv as int);
            lemma_value_bound(b);
        }
        for i in 0..la
            invariant
                a == self.limbs_seq(),
                b == rhs.limbs_seq(),
                bv == limbs_value(b),
                bv < weight(lb as nat),
                la == a.len(),
                lb == b.len(),
                n == la + lb,
                out.len() == n,
                limbs_value(out@) == limbs_value(a.take(i as int)) * bv,
        {
            let lhs = self.limb(i) as u128;
            let mut carry: u128 = 0;
            let ghost base_value = limbs_value(a.take(i as int)) * bv;
            let ghost wi = weight(i as nat);
            proof {
                assert(b.take(0) =~= Seq::<u64>::empty());
                lemma_mul_basics(lhs as int);
                lemma_mul_basics(wi as int);
            }
            for j in 0..lb
                invariant
                    b == rhs.limbs_seq(),
                    lb == b.len(),
                    i < la,
                    n == la + lb,
                    out.len() == n,
                    lhs < limb_base(),
                    carry < limb_base(),
                    wi == weight(i as nat),
                    limbs_value(out@) + carry * weight((i + j) as nat) == base_value + lhs
                        * limbs_value(b.take(j as int)) * wi,
            {
                let slot = i + j;
                let rhs_limb = rhs.limb(j) as u128;
                let old_limb = out[slot] as u128;
                proof {
                    assert(old_limb + lhs * rhs_limb + carry <= 0xffff_ffff_ffff_ffffu128
                        + 0xffff_ffff_ffff_ffffu128 * 0xffff_ffff_ffff_ffffu128
                        + 0xffff_ffff_ffff_ffffu128) by (nonlinear_arith)
                        requires
                            old_limb < limb_base(),
                            lhs < limb_base(),
                            rhs_limb < limb_base(),
                            carry < limb_base(),
                    ;
                }
                let acc = old_limb + lhs * rhs_limb + carry;
                let ghost old_out = out@;
                out.set(slot, acc as u64);
                carry = acc >> 64;
                proof {
                    let ws = weight(slot as nat);
                    let wj = weight(j as nat);
                    lemma_u128_split(acc);
                    lemma_value_update(old_out, slot as int, acc as u64);
                    lemma_weight_succ(slot as nat);
                    lemma_weight_add(i as nat, j as nat);
                    lemma_value_take_step(b, j as int);
                    let lo = (acc as u64) as nat;
                    let hi = (acc >> 64u128) as nat;
                    let pj = limbs_value(b.take(j as int));
                    assert(lo * ws + hi * (ws * limb_base()) == acc * ws) by (nonlinear_arith)
                        requires
                            acc as nat == lo + hi * limb_base(),
                    ;
                    assert(acc * ws == old_limb * ws + carry * 0 + (lhs * rhs_limb) * ws + (acc
                        - old_limb - lhs * rhs_limb) * ws) by (nonlinear_arith);
                    assert(lhs * (pj + rhs_limb * wj) * wi == lhs * pj * wi + (lhs * rhs_limb) * (
                    wi * wj)) by (nonlinear_arith);
                    assert((acc - old_limb - lhs * rhs_limb) * ws + (lhs * rhs_limb) * ws + old_limb
                        * ws == acc * ws) by (nonlinear_arith);
                    assert(hi < limb_base()) by (nonlinear_arith)
                        requires
                            acc as nat == lo + hi * limb_base(),
                            acc <= 0xffff_ffff_ffff_ffffu128 + 0xffff_ffff_ffff_ffffu128
                                * 0xffff_ffff_ffff_ffffu128 + 0xffff_ffff_ffff_ffffu128,
                    ;
                }
            }
            let ghost target = limbs_value(a.take(i + 1)) * bv;
            proof {
                lemma_value_take_all(b);
                lemma_value_take_step(a, i as int);
                assert(target == base_value + lhs * bv * wi) by (nonlinear_arith)
                    requires
                        target == limbs_value(a.take(i + 1)) * bv,
                        limbs_value(a.take(i + 1)) == limbs_value(a.take(i as int)) + lhs * wi,
                        base_value == limbs_value(a.take(i as int)) * bv,
                ;
                // The partial product stays below the weight of the output length.
                assert(a.take(i + 1).len() == i + 1);
                lemma_value_bound(a.take(i + 1));
                lemma_weight_add((i + 1) as nat, lb as nat);
                lemma_weight_mono((i + 1 + lb) as nat, n);
                assert(target < weight(n)) by (nonlinear_arith)
                    requires
                        target == limbs_value(a.take(i + 1)) * bv,
                        limbs_value(a.take(i + 1)) < weight((i + 1) as nat),
                        bv < weight(lb as nat),
                        weight((i + 1) as nat) * weight(lb as nat) <= weight(n),
                ;
            }
            let mut slot = i + lb;
            while carry != 0
                invariant
                    n == la + lb,
                    out.len() == n,
                    i + lb <= slot <= n,
                    carry < limb_base(),
                    target < weight(n),
                    limbs_value(out@) + carry * weight(slot as nat) == target,
                decreases n - slot,
            {
                proof {
                    if slot == n {
                        assert(carry * weight(slot as nat) >= weight(n)) by (nonlinear_arith)
                            requires
                                carry >= 1,
                                slot == n,
                        ;
                    }
                }
                let old_limb = out[slot] as u128;
                let acc = old_limb + carry;
                let ghost old_out = out@;
                out.set(slot, acc as u64);
                carry = acc >> 64;
                proof {
                    let ws = weight(slot as nat);
                    lemma_u128_split(acc);
                    lemma_value_update(old_out, slot as int, acc as u64);
                    lemma_weight_succ(slot as nat);
                    let lo = (acc as u64) as nat;
                    let hi = (acc >> 64u128) as nat;
                    assert(lo * ws + hi * (ws * limb_base()) == (old_limb + (acc - old_limb)) * ws)
                        by (nonlinear_arith)
                        requires
                            acc as nat == lo + hi * limb_base(),
                    ;
                    assert((old_limb + (acc - old_limb)) * ws == old_limb * ws + (acc - old_limb)
                        * ws) by (nonlinear_arith);
                }
                slot = slot + 1;
            }
        }
        proof {
            lemma_value_take_all(a);
        }
        Self::from_limbs(out)
    }

    /// -1, 0 or 1 as `self` is less than, equal to or greater than `other`.
    pub(crate) fn compare_to(&self, other: &Self) -> (r: i8)
        ensures
            r == -1 <==> self@ < other@,
            r == 0 <==> self@ == other@,
            r == 1 <==> self@ > other@,
    {
        proof {
            use_type_invariant(self);
            use_type_invariant(other);
            self.lemma_normalized();
            other.lemma_normalized();
        }
        let ghost a = self.limbs_seq();
        let ghost b = other.limbs_seq();
        let la = self.limb_count();
        let lb = other.limb_count();
        if la < lb {
            proof {
                lemma_value_compare_len(a, b);
            }
            return -1;
        }
        if lb < la {
            proof {
                lemma_value_compare_len(b, a);
            }
            return 1;
        }
        let mut i = la;
        proof {
            assert(a.skip(la as int) =~= b.skip(la as int));
        }
        while i > 0
            invariant
                a == self.limbs_seq(),
                b == other.limbs_seq(),
                la == a.len(),
                la == b.len(),
                i <= la,
                a.skip(i as int) == b.skip(i as int),
            decreases i,
        {
            i = i - 1;
            let x = self.limb(i);
            let y = other.limb(i);
            if x < y {
                proof {
                    lemma_value_compare_at(a, b, i as int);
                }
                return -1;
            }
            if y < x {
                proof {
                    lemma_value_compare_at(b, a, i as int);
                }
                return 1;
            }
            proof {
                assert(a.skip(i as int) =~= b.skip(i as int)) by {
                    assert forall|k: int| 0 <= k < a.skip(i as int).len() implies #[trigger] a.skip(
                        i as int,
                    )[k] == b.skip(i as int)[k] by {
                        if k > 0 {
                            assert(a.skip(i + 1)[k - 1] == b.skip(i + 1)[k - 1]);
                        }
                    }
                }
            }
        }
        proof {
            assert(a =~= a.skip(0));
            assert(b =~= b.skip(0));
        }
        0
    }

    /// Division by one limb.
    pub fn div_rem_limb(&self, divisor: u64) -> (r: (Self, u64))
        requires
            divisor != 0,
        ensures
            r.0@ * divisor + r.1 == self@,
            r.1 < divisor,
    {
        proof {
            use_type_invariant(self);
        }
        if self.is_zero() {
            proof {
                lemma_mul_basics(divisor as int);
            }
            return (Self::zero(), 0);
        }
        let ghost a = self.limbs_seq();
        let d = divisor as u128;
        let n = self.limb_count();
        let mut out = Self::zero_limbs(n);
        let mut remainder: u128 = 0;
        let mut i = n;
        proof {
            assert(a.skip(n as int) =~= Seq::<u64>::empty());
            assert(out@.skip(n as int) =~= Seq::<u64>::empty());
            lemma_mul_basics(d as int);
        }
        while i > 0
            invariant
                a == self.limbs_seq(),
                n == a.len(),
                out.len() == n,
                i <= n,
                d == divisor,
                remainder < d,
                limbs_value(a.skip(i as int)) == limbs_value(out@.skip(i as int)) * d + remainder,
            decreases i,
        {
            i = i - 1;
            let limb = self.limb(i);
            proof {
                lemma_u128_join(remainder as u64, limb);
            }
            let value = (remainder << 64u128) | (limb as u128);
            let quotient = value / d;
            let ghost old_out = out@;
            let ghost old_rem = remainder;
            let ghost q_high = limbs_value(old_out.skip(i + 1));
            proof {
                assert(remainder as u64 == remainder);
                assert(value as nat == remainder * limb_base() + limb);
                lemma_fundamental_div_mod(value as int, d as int);
                assert(quotient < limb_base()) by (nonlinear_arith)
                    requires
                        value == d * quotient + value % d,
                        value % d >= 0,
                        value as nat == remainder * limb_base() + limb,
                        remainder < d,
                        limb < limb_base(),
                ;
            }
            out.set(i, quotient as u64);
            remainder = value % d;
            proof {
                lemma_value_head(a.skip(i as int));
                assert(a.skip(i as int).skip(1) =~= a.skip(i + 1));
                lemma_value_head(out@.skip(i as int));
                assert(out@.skip(i as int).skip(1) =~= old_out.skip(i + 1));
                assert(limbs_value(a.skip(i as int)) == (quotient + limb_base() * q_high) * d
                    + remainder) by (nonlinear_arith)
                    requires
                        limbs_value(a.skip(i as int)) == limb + limb_base() * limbs_value(
                            a.skip(i + 1),
                        ),
                        limbs_value(a.skip(i + 1)) == q_high * d + old_rem,
                        value as nat == old_rem * limb_base() + limb,
                        value == d * quotient + remainder,
                ;
            }
        }
        proof {
            assert(a.skip(0) =~= a);
            assert(out@.skip(0) =~= out@);
        }
        (Self::from_limbs(out), remainder as u64)
    }

    pub fn div_rem_small(&self, divisor: u32) -> (r: (Self, u32))
        requires
            divisor != 0,
        ensures
            r.0@ * divisor + r.1 == self@,
            r.1 < divisor,
    {
        let (quotient, remainder) = self.div_rem_limb(divisor as u64);
        (quotient, remainder as u32)
    }
}

impl BigUintCore {
    fn as_u64(&self) -> (r: Option<u64>)
        ensures
            r matches Some(v) ==> v as nat == self@,
            r is None ==> self@ >= limb_base(),
    {
        proof {
            use_type_invariant(self);
            self.lemma_normalized();
        }
        match &self.repr {
            Repr::Inline(v) => {
                proof {
                    lemma_value_single(*v);
                }
                Some(*v)
            },
            Repr::Heap(_) => {
                proof {
                    lemma_weight_mono(1, (self.limbs_seq().len() - 1) as nat);
                    assert(weight(1) == limb_base() * weight(0));
                }
                None
            },
        }
    }

    /// The number of significant bits, or `None` where that count exceeds `usize::MAX`.
    fn checked_bit_len(&self) -> (r: Option<usize>)
        ensures
            r is None <==> self@ >= pow2(usize::MAX as nat),
            r matches Some(n) ==> {
                &&& self@ == 0 ==> n == 0
                &&& self@ > 0 ==> n >= 1 && pow2((n - 1) as nat) <= self@ && self@ < pow2(n as nat)
            },
    {
        proof {
            use_type_invariant(self);
            self.lemma_normalized();
        }
        match &self.repr {
            Repr::Inline(value) => {
                proof {
                    lemma_value_single(*value);
                }
                if *value == 0 {
                    proof {
                        lemma_pow2_pos(usize::MAX as nat);
                    }
                    Some(0)
                } else {
                    proof {
                        lemma_leading_zeros_bounds(*value);
                        let hb = (64 - u64_leading_zeros(*value)) as nat;
                        if hb <= usize::MAX {
                            if hb < usize::MAX {
                                lemma_pow2_strictly_increases(hb, usize::MAX as nat);
                            }
                        }
                    }
                    Some(64 - value.leading_zeros() as usize)
                }
            },
            Repr::Heap(limbs) => {
                let n = limbs.len();
                let high = limbs[n - 1];
                let ghost lz = u64_leading_zeros(high);
                let ghost a = limbs@;
                let ghost k = (n - 1) as nat;
                let ghost hb = (64 - lz) as nat;
                proof {
                    lemma_leading_zeros_bounds(high);
                    lemma_weight_is_pow2(k);
                    lemma_value_split(a, k as int);
                    assert(a.skip(k as int) =~= seq![high]);
                    lemma_value_single(high);
                    lemma_value_bound(a.take(k as int));
                    let low = limbs_value(a.take(k as int));
                    lemma_pow2_adds(64 * k, hb);
                    lemma_pow2_adds(64 * k, (hb - 1) as nat);
                    assert(self@ == low + weight(k) * high);
                    assert(weight(k) * pow2((hb - 1) as nat) <= weight(k) * high) by (
                    nonlinear_arith)
                        requires
                            pow2((hb - 1) as nat) <= high,
                    ;
                    assert(low + weight(k) * high < weight(k) * pow2(hb)) by (nonlinear_arith)
                        requires
                            low < weight(k),
                            high + 1 <= pow2(hb),
                    ;
                    let total = 64 * k + hb;
                    if total > usize::MAX {
                        lemma_pow2_increases_nat(usize::MAX as nat, (total - 1) as nat);
                    } else {
                        lemma_pow2_increases_nat(total, usize::MAX as nat);
                    }
                }
                match (n - 1).checked_mul(64) {
                    Some(low_bits) => low_bits.checked_add(64 - high.leading_zeros() as usize),
                    None => {
                        proof {
                            lemma_pow2_increases_nat(usize::MAX as nat, (64 * k + hb - 1) as nat);
                        }
                        None
                    },
                }
            },
        }
    }

    /// The number of significant bits: zero for zero, else the `n` with
    /// `2^(n-1) <= self < 2^n`. The bit count must fit a `usize`.
    pub fn bit_len(&self) -> (r: usize)
        requires
            self@ < pow2(usize::MAX as nat),
        ensures
            self@ == 0 ==> r == 0,
            self@ > 0 ==> r >= 1 && pow2((r - 1) as nat) <= self@ && self@ < pow2(r as nat),
    {
        match self.checked_bit_len() {
            Some(bits) => bits,
            None => 0,
        }
    }

    /// Multiplication by `2^bits`.
    pub fn shl_bits(&self, bits: usize) -> (r: Self)
        ensures
            r@ == self@ * pow2(bits as nat),
    {
        proof {
            use_type_invariant(self);
        }
        if self.is_zero() {
            proof {
                lemma_mul_basics(pow2(bits as nat) as int);
            }
            return Self::zero();
        }
        if bits == 0 {
            proof {
                lemma2_to64();
                lemma_mul_basics(self@ as int);
            }
            return self.copy();
        }
        let ghost a = self.limbs_seq();
        let limb_shift = bits / 64;
        let bit_shift = (bits % 64) as u64;
        let n = self.limb_count();
        let mut out = Self::zero_limbs(limb_shift);
        let mut carry: u64 = 0;
        let ghost ws = weight(limb_shift as nat);
        let ghost ps = pow2(bit_shift as nat);
        proof {
            assert(a.take(0) =~= Seq::<u64>::empty());
            lemma_pow2_pos(bit_shift as nat);
            lemma_mul_basics(ps as int);
            lemma_mul_basics(ws as int);
        }
        for index in 0..n
            invariant
                a == self.limbs_seq(),
                n == a.len(),
                bit_shift < 64,
                ws == weight(limb_shift as nat),
                ps == pow2(bit_shift as nat),
                out.len() == limb_shift + index,
                carry < ps,
                bit_shift == 0 ==> carry == 0,
                limbs_value(out@) + carry * weight((limb_shift + index) as nat) == limbs_value(
                    a.take(index as int),
                ) * ps * ws,
        {
            let limb = self.limb(index);
            let ghost w = weight((limb_shift + index) as nat);
            let ghost pre = limbs_value(a.take(index as int));
            proof {
                lemma_value_take_step(a, index as int);
                lemma_weight_add(index as nat, limb_shift as nat);
                lemma_weight_succ((limb_shift + index) as nat);
            }
            let word = (limb << bit_shift) | carry;
            let next_carry = if bit_shift == 0 {
                0
            } else {
                limb >> (64 - bit_shift)
            };
            proof {
                lemma_value_push(out@, word);
                let wi = weight(index as nat);
                assert(weight((index + limb_shift) as nat) == w);
                if bit_shift == 0 {
                    assert(limb << 0u64 == limb) by (bit_vector);
                    assert(limb | 0u64 == limb) by (bit_vector);
                    lemma2_to64();
                    assert(word == limb);
                } else {
                    lemma_shl_limb(limb, bit_shift, (64 - bit_shift) as u64, carry);
                }
                let hi = next_carry as nat;
                let lo = if bit_shift == 0 { limb as nat } else { (limb << bit_shift) as nat };
                assert(limb * ps == lo + hi * limb_base()) by {
                    if bit_shift == 0 {
                        lemma_mul_basics(limb as int);
                    }
                }
                assert(word as nat == lo + carry);
                assert(word * w == lo * w + carry * w) by (nonlinear_arith)
                    requires
                        word as nat == lo + carry,
                ;
                assert(lo * w + hi * (w * limb_base()) == (lo + hi * limb_base()) * w)
                    by (nonlinear_arith);
                assert((limb * ps) * w == (limb * wi) * ps * ws) by (nonlinear_arith)
                    requires
                        w == wi * ws,
                ;
                assert((pre + limb * wi) * ps * ws == pre * ps * ws + (limb * wi) * ps * ws)
                    by (nonlinear_arith);
                assert(limbs_value(out@) + word * w + hi * (w * limb_base()) == (pre + limb * wi)
                    * ps * ws);
            }
            out.push(word);
            carry = next_carry;
        }
        proof {
            lemma_value_take_all(a);
        }
        if bit_shift != 0 {
            proof {
                lemma_value_push(out@, carry);
            }
            out.push(carry);
        } else {
            proof {
                lemma_mul_basics(weight((limb_shift + n) as nat) as int);
            }
        }
        proof {
            lemma_weight_is_pow2(limb_shift as nat);
            lemma_pow2_adds(bit_shift as nat, 64 * limb_shift as nat);
            assert(bits as nat == bit_shift as nat + 64 * limb_shift as nat);
            lemma_mul_is_associative(self@ as int, ps as int, ws as int);
        }
        Self::from_limbs(out)
    }

    /// Halving, rounding down.
    fn shr1(&self) -> (r: Self)
        ensures
            r@ == self@ / 2,
    {
        proof {
            use_type_invariant(self);
        }
        if self.is_zero() {
            return Self::zero();
        }
        let ghost a = self.limbs_seq();
        let n = self.limb_count();
        let mut out = Self::zero_limbs(n);
        let mut carry: u64 = 0;
        let mut index = n;
        proof {
            assert(a.skip(n as int) =~= Seq::<u64>::empty());
            assert(out@.skip(n as int) =~= Seq::<u64>::empty());
        }
        while index > 0
            invariant
                a == self.limbs_seq(),
                n == a.len(),
                out.len() == n,
                index <= n,
                carry == 0 || carry == 0x8000_0000_0000_0000u64,
                limbs_value(a.skip(index as int)) == 2 * limbs_value(out@.skip(index as int)) + (
                if carry == 0 {
                    0nat
                } else {
                    1nat
                }),
            decreases index,
        {
            index = index - 1;
            let limb = self.limb(index);
            let carry_bit: u64 = if carry == 0 {
                0
            } else {
                1
            };
            proof {
                assert(carry_bit << 63u64 == carry) by (bit_vector)
                    requires
                        carry == 0 || carry == 0x8000_0000_0000_0000u64,
                        carry_bit == (if carry == 0 {
                            0u64
                        } else {
                            1u64
                        }),
                ;
                lemma_shr1_limb(limb, carry_bit);
            }
            let ghost old_out = out@;
            let ghost q_high = limbs_value(old_out.skip(index + 1));
            out.set(index, (limb >> 1) | carry);
            carry = (limb & 1) << 63;
            proof {
                lemma_value_head(a.skip(index as int));
                assert(a.skip(index as int).skip(1) =~= a.skip(index + 1));
                lemma_value_head(out@.skip(index as int));
                assert(out@.skip(index as int).skip(1) =~= old_out.skip(index + 1));
                assert(limbs_value(a.skip(index as int)) == 2 * limbs_value(out@.skip(index as int))
                    + (limb as nat) % 2) by (nonlinear_arith)
                    requires
                        limbs_value(a.skip(index as int)) == limb + limb_base() * limbs_value(
                            a.skip(index + 1),
                        ),
                        limbs_value(a.skip(index + 1)) == 2 * q_high + carry_bit,
                        limbs_value(out@.skip(index as int)) == out@[index as int] + limb_base()
                            * q_high,
                        out@[index as int] == (limb as nat) / 2 + carry_bit * 0x8000_0000_0000_0000,
                        limb == 2 * ((limb as nat) / 2) + (limb as nat) % 2,
                ;
            }
        }
        proof {
            assert(a.skip(0) =~= a);
            assert(out@.skip(0) =~= out@);
        }
        Self::from_limbs(out)
    }

    /// Euclidean division by shifting and subtracting.
    pub fn div_rem(&self, rhs: &Self) -> (r: (Self, Self))
        requires
            rhs@ != 0,
        ensures
            r.0@ * rhs@ + r.1@ == self@,
            r.1@ < rhs@,
    {
        if self.compare_to(rhs) == -1 {
            proof {
                lemma_mul_basics(rhs@ as int);
            }
            return (Self::zero(), self.copy());
        }
        let one = Self::one();
        if rhs.compare_to(&one) == 0 {
            proof {
                lemma_mul_basics(self@ as int);
            }
            return (self.copy(), Self::zero());
        }
        if let Some(divisor) = rhs.as_u64() {
            let (quotient, remainder) = self.div_rem_limb(divisor);
            return (quotient, Self::from_u64(remainder));
        }
        let mut quotient = Self::zero();
        let mut remainder = self.copy();
        let ghost mut k: nat = 0;
        let (mut shifted_divisor, mut quotient_bit) = match remainder.checked_bit_len() {
            Some(total_bits) => {
                let rhs_bits = rhs.bit_len();
                proof {
                    if total_bits + 1 < rhs_bits {
                        lemma_pow2_strictly_increases(total_bits as nat, (rhs_bits - 1) as nat);
                    }
                }
                let max_shift = total_bits - rhs_bits;
                proof {
                    k = max_shift as nat;
                    lemma_mul_basics(rhs@ as int);
                    lemma_pow2_adds((rhs_bits - 1) as nat, (max_shift + 1) as nat);
                    assert((rhs_bits - 1) as nat + (max_shift + 1) as nat == total_bits as nat);
                    lemma_mul_inequality(
                        pow2((rhs_bits - 1) as nat) as int,
                        rhs@ as int,
                        pow2((max_shift + 1) as nat) as int,
                    );
                }
                (rhs.shl_bits(max_shift), one.shl_bits(max_shift))
            },
            None => {
                // A bit count beyond `usize` cannot be shifted by at once: the divisor
                // grows by doubling instead.
                let mut shifted = rhs.copy();
                let mut bit = one.copy();
                proof {
                    lemma2_to64();
                    lemma_mul_basics(rhs@ as int);
                }
                while shifted.compare_to(self) != 1
                    invariant
                        rhs@ >= 1,
                        one@ == 1,
                        shifted@ == rhs@ * pow2(k),
                        bit@ == pow2(k),
                    decreases 2 * self@ - shifted@,
                {
                    proof {
                        lemma2_to64();
                        lemma_pow2_unfold(k + 1);
                        lemma_pow2_pos(k);
                        assert(rhs@ * pow2(k + 1) == 2 * (rhs@ * pow2(k))) by (nonlinear_arith)
                            requires
                                pow2(k + 1) == 2 * pow2(k),
                        ;
                        assert(rhs@ * pow2(k) >= 1) by (nonlinear_arith)
                            requires
                                rhs@ >= 1,
                                pow2(k) >= 1,
                        ;
                        k = k + 1;
                    }
                    shifted = shifted.shl_bits(1);
                    bit = bit.shl_bits(1);
                }
                proof {
                    lemma_pow2_unfold(k + 1);
                    assert(rhs@ * pow2(k + 1) == 2 * (rhs@ * pow2(k))) by (nonlinear_arith)
                        requires
                            pow2(k + 1) == 2 * pow2(k),
                    ;
                }
                (shifted, bit)
            },
        };
        proof {
            lemma_pow2_pos(k);
        }
        while !quotient_bit.is_zero()
            invariant
                rhs@ != 0,
                quotient@ * rhs@ + remainder@ == self@,
                quotient_bit@ != 0 ==> {
                    &&& quotient_bit@ == pow2(k)
                    &&& shifted_divisor@ == rhs@ * pow2(k)
                    &&& remainder@ < rhs@ * pow2(k + 1)
                },
                quotient_bit@ == 0 ==> remainder@ < rhs@,
            decreases quotient_bit@,
        {
            if shifted_divisor.compare_to(&remainder) != 1 {
                proof {
                    lemma_pow2_unfold(k + 1);
                    assert(remainder@ - shifted_divisor@ < rhs@ * pow2(k)) by (nonlinear_arith)
                        requires
                            remainder@ < rhs@ * pow2(k + 1),
                            pow2(k + 1) == 2 * pow2(k),
                            shifted_divisor@ == rhs@ * pow2(k),
                    ;
                    assert((quotient@ + quotient_bit@) * rhs@ == quotient@ * rhs@
                        + shifted_divisor@) by (nonlinear_arith)
                        requires
                            shifted_divisor@ == rhs@ * pow2(k),
                            quotient_bit@ == pow2(k),
                    ;
                }
                remainder = remainder.sub(&shifted_divisor);
                quotient = quotient.add(&quotient_bit);
            }
            let ghost old_bit = quotient_bit@;
            shifted_divisor = shifted_divisor.shr1();
            quotient_bit = quotient_bit.shr1();
            proof {
                if k >= 1 {
                    lemma_pow2_unfold(k);
                    assert(rhs@ * pow2(k) == 2 * (rhs@ * pow2((k - 1) as nat))) by (
                    nonlinear_arith)
                        requires
                            pow2(k) == 2 * pow2((k - 1) as nat),
                    ;
                    lemma_pow2_pos((k - 1) as nat);
                    k = (k - 1) as nat;
                } else {
                    lemma2_to64();
                    lemma_mul_basics(rhs@ as int);
                }
            }
        }
        (quotient, remainder)
    }
}

impl BigUintCore {
    /// Exponentiation by squaring.
    pub fn pow_u32(&self, exponent: u32) -> (r: Self)
        ensures
            r@ == pow(self@ as int, exponent as nat),
    {
        if exponent == 0 {
            proof {
                lemma_pow0(self@ as int);
            }
            return Self::one();
        }
        let ghost x = self@ as int;
        let ghost e0 = exponent as nat;
        let mut exponent = exponent;
        let mut base = self.copy();
        let mut result = Self::one();
        proof {
            lemma_mul_basics(pow(x, e0));
        }
        while exponent != 0
            invariant
                x == self@,
                result@ * pow(base@ as int, exponent as nat) == pow(x, e0),
            decreases exponent,
        {
            let ghost b = base@ as int;
            let ghost e = exponent as nat;
            let ghost h = (exponent / 2) as nat;
            let ghost r0 = result@ as int;
            proof {
                lemma_u32_halve(exponent);
                lemma_pow_multiplies(b, 2, h);
                lemma_square_is_pow2(b);
                lemma_pow_adds(b, 1, 2 * h);
                lemma_pow1(b);
            }
            if exponent & 1 == 1 {
                result = result.mul(&base);
                proof {
                    assert(e == 1 + 2 * h);
                    assert(r0 * pow(b, e) == (r0 * b) * pow(b * b, h)) by (nonlinear_arith)
                        requires
                            pow(b, e) == b * pow(b, 2 * h),
                            pow(b, 2 * h) == pow(b * b, h),
                    ;
                }
            } else {
                proof {
                    assert(e == 2 * h);
                }
            }
            exponent = exponent >> 1;
            if exponent != 0 {
                base = base.mul(&base);
            } else {
                proof {
                    lemma_pow0(b);
                    lemma_pow0(b * b);
                }
            }
        }
        proof {
            lemma_pow0(base@ as int);
            lemma_mul_basics(result@ as int);
        }
        result
    }

    /// The integer square root and what is left over, by Newton's iteration from above.
    pub fn sqrt_rem(&self) -> (r: (Self, Self))
        ensures
            r.0@ * r.0@ <= self@,
            self@ < (r.0@ + 1) * (r.0@ + 1),
            r.1@ == self@ - r.0@ * r.0@,
    {
        if self.is_zero() {
            assert(0nat * 0nat == 0nat && 1nat * 1nat == 1nat);
            return (Self::zero(), Self::zero());
        }
        let one = Self::one();
        if self.compare_to(&one) == 0 {
            assert(1nat * 1nat == 1nat && 2nat * 2nat == 4nat);
            return (Self::one(), Self::zero());
        }
        let ghost x = self@;
        let mut estimate = match self.checked_bit_len() {
            Some(bits) => {
                let half = bits / 2 + bits % 2;
                let estimate = one.shl_bits(half);
                proof {
                    lemma_mul_basics(pow2(half as nat) as int);
                    lemma_pow2_adds(half as nat, half as nat);
                    if bits < 2 * half {
                        lemma_pow2_strictly_increases(bits as nat, 2 * half as nat);
                    }
                    assert((estimate@ + 1) * (estimate@ + 1) > estimate@ * estimate@)
                        by (nonlinear_arith);
                }
                estimate
            },
            None => {
                // Newton's iteration also converges from the value itself.
                proof {
                    assert((x + 1) * (x + 1) > x) by (nonlinear_arith);
                }
                self.copy()
            },
        };
        loop
            invariant
                x == self@,
                x >= 2,
                estimate@ >= 1,
                (estimate@ + 1) * (estimate@ + 1) > x,
            decreases estimate@,
        {
            let quotient = self.div_rem(&estimate).0;
            let sum = estimate.add(&quotient);
            let next = sum.div_rem_small(2).0;
            proof {
                let e = estimate@;
                let q = quotient@;
                let n = next@;
                assert((n + 1) * (n + 1) > x) by (nonlinear_arith)
                    requires
                        q * e <= x,
                        x < q * e + e,
                        e >= 1,
                        2 * n + 1 >= e + q,
                ;
                assert(n >= 1) by (nonlinear_arith)
                    requires
                        (n + 1) * (n + 1) > x,
                        x >= 2,
                ;
            }
            if next.compare_to(&estimate) != -1 {
                break ;
            }
            estimate = next;
        }
        let mut square = estimate.mul(&estimate);
        while square.compare_to(self) == 1
            invariant
                x == self@,
                one@ == 1,
                square@ == estimate@ * estimate@,
                (estimate@ + 1) * (estimate@ + 1) > x,
            decreases estimate@,
        {
            proof {
                if estimate@ == 0 {
                    assert(square@ == 0);
                }
            }
            estimate = estimate.sub(&one);
            square = estimate.mul(&estimate);
        }
        loop
            invariant
                x == self@,
                one@ == 1,
                square@ == estimate@ * estimate@,
                square@ <= x,
            ensures
                square@ == estimate@ * estimate@,
                square@ <= x,
                x < (estimate@ + 1) * (estimate@ + 1),
            decreases x - estimate@,
        {
            proof {
                assert(estimate@ <= x) by (nonlinear_arith)
                    requires
                        estimate@ * estimate@ <= x,
                ;
            }
            let next = estimate.add(&one);
            let next_square = next.mul(&next);
            if next_square.compare_to(self) == 1 {
                break ;
            }
            proof {
                assert(next@ <= x) by (nonlinear_arith)
                    requires
                        next@ * next@ <= x,
                        next@ == estimate@ + 1,
                ;
            }
            estimate = next;
            square = next_square;
        }
        let root = estimate.copy();
        let remainder = self.sub(&square);
        (root, remainder)
    }

    /// The integer `degree`-th root and what is left over, by bisection; `None` for
    /// degree zero.
    pub fn nth_root_rem(&self, degree: u32) -> (r: Option<(Self, Self)>)
        ensures
            r is None <==> degree == 0,
            r matches Some(p) ==> {
                &&& pow(p.0@ as int, degree as nat) <= self@
                &&& self@ < pow((p.0@ + 1) as int, degree as nat)
                &&& p.1@ == self@ - pow(p.0@ as int, degree as nat)
            },
    {
        if degree == 0 {
            return None;
        }
        if self.is_zero() {
            proof {
                lemma0_pow(degree as nat);
                lemma1_pow(degree as nat);
            }
            return Some((Self::zero(), Self::zero()));
        }
        if degree == 1 {
            proof {
                lemma_pow1(self@ as int);
                lemma_pow1((self@ + 1) as int);
            }
            return Some((self.copy(), Self::zero()));
        }
        if degree == 2 {
            let (root, remainder) = self.sqrt_rem();
            proof {
                lemma_square_is_pow2(root@ as int);
                lemma_square_is_pow2((root@ + 1) as int);
            }
            return Some((root, remainder));
        }
        let ghost x = self@;
        let ghost d = degree as nat;
        let one = Self::one();
        let mut high = match self.checked_bit_len() {
            Some(bits) => {
                let degree_size = degree as usize;
                proof {
                    lemma_fundamental_div_mod(bits as int, degree_size as int);
                    assert(bits / degree_size < usize::MAX) by (nonlinear_arith)
                        requires
                            bits == degree_size * (bits / degree_size) + bits % degree_size,
                            bits % degree_size >= 0,
                            degree_size >= 3,
                            bits <= usize::MAX,
                    ;
                }
                let high_bits = bits / degree_size + if bits % degree_size != 0 {
                    1
                } else {
                    0
                };
                let high = one.shl_bits(high_bits);
                proof {
                    lemma_mul_basics(pow2(high_bits as nat) as int);
                    let c = high_bits as nat;
                    let bn = bits as nat;
                    let q = bn / d;
                    let rm = bn % d;
                    if bn % d != 0 {
                        assert(c * d >= bn) by (nonlinear_arith)
                            requires
                                bn == d * q + rm,
                                c == q + 1,
                                rm < d,
                        ;
                    } else {
                        assert(c * d >= bn) by (nonlinear_arith)
                            requires
                                bn == d * q + rm,
                                c == q,
                                rm == 0,
                        ;
                    }
                    lemma_pow2(c);
                    lemma_pow_multiplies(2, c, d);
                    lemma_pow2(c * d);
                    if bn < c * d {
                        lemma_pow2_strictly_increases(bn, c * d);
                    }
                    lemma_pow_base_strict(high@, high@ + 1, d);
                    lemma_pow2_pos(c);
                }
                high
            },
            None => {
                // The value itself bounds its root from above.
                proof {
                    lemma_pow_increases((x + 1) as nat, 1, d);
                    lemma_pow1((x + 1) as int);
                }
                self.copy()
            },
        };
        let mut low = Self::one();
        proof {
            lemma1_pow(d);
        }
        while low.compare_to(&high) == -1
            invariant
                x == self@,
                d == degree,
                d >= 3,
                one@ == 1,
                1 <= low@ <= high@,
                pow(low@ as int, d) <= x,
                pow((high@ + 1) as int, d) > x,
            decreases high@ - low@,
        {
            let (midpoint, half_bit) = low.add(&high).add_small(1).div_rem_small(2);
            proof {
                assert(low@ < midpoint@ <= high@) by (nonlinear_arith)
                    requires
                        midpoint@ * 2 + half_bit == low@ + high@ + 1,
                        half_bit < 2,
                        low@ < high@,
                ;
            }
            let mid_power = midpoint.pow_u32(degree);
            if mid_power.compare_to(self) != 1 {
                low = midpoint;
            } else {
                high = midpoint.sub(&one);
            }
        }
        let floor_power = low.pow_u32(degree);
        let remainder = self.sub(&floor_power);
        Some((low, remainder))
    }

    /// Multiplication by `10^exp`.
    pub fn mul_pow10(&self, exp: u32) -> (r: Self)
        ensures
            r@ == self@ * pow(10, exp as nat),
    {
        let mut value = self.copy();
        proof {
            lemma_pow0(10);
            lemma_mul_basics(self@ as int);
        }
        for i in 0..exp
            invariant
                value@ == self@ * pow(10, i as nat),
        {
            proof {
                lemma_pow_adds(10, i as nat, 1);
                lemma_pow1(10);
                lemma_mul_is_associative(self@ as int, pow(10, i as nat), 10);
            }
            value = value.mul_small(10);
        }
        value
    }
}

impl Clone for BigUintCore {
    fn clone(&self) -> (r: Self)
        ensures
            r@ == self@,
    {
        self.copy()
    }
}

impl Default for BigUintCore {
    fn default() -> (r: Self)
        ensures
            r@ == 0,
    {
        Self::zero()
    }
}

} // verus!
