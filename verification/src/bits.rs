//! Facts about machine-word shifts, masks and casts used by the limb algorithms.
use vstd::arithmetic::div_mod::*;
use vstd::arithmetic::mul::*;
use vstd::arithmetic::power::*;
use vstd::arithmetic::power2::*;
use vstd::bits::*;
use vstd::prelude::*;
use vstd::std_specs::bits::u64_leading_zeros;

use crate::limbs::{limb_base, lemma_weight_succ, weight};

verus! {

/// A 128-bit word is its low limb plus its high limb times the base.
pub proof fn lemma_u128_split(x: u128)
    ensures
        (x as u64) as nat == (x as nat) % limb_base(),
        (x >> 64u128) as nat == (x as nat) / limb_base(),
        x as nat == (x as u64) as nat + (x >> 64u128) as nat * limb_base(),
{
    assert((x as u64) as u128 == x % 0x1_0000_0000_0000_0000u128) by (bit_vector);
    assert(x >> 64u128 == x / 0x1_0000_0000_0000_0000u128) by (bit_vector);
    lemma_fundamental_div_mod(x as int, limb_base() as int);
}

/// Placing a limb above another in a 128-bit word.
pub proof fn lemma_u128_join(hi: u64, lo: u64)
    ensures
        (((hi as u128) << 64u128) | (lo as u128)) as nat == (hi as nat) * limb_base() + (lo as nat),
{
    assert(((hi as u128) << 64u128) | (lo as u128) == (hi as u128) * 0x1_0000_0000_0000_0000u128
        + (lo as u128)) by (bit_vector);
}

/// The base of one limb is two to the sixty-fourth.
pub proof fn lemma_base_is_pow2()
    ensures
        limb_base() == pow2(64),
{
    lemma2_to64_rest();
}

/// The weight of limb `k` is two to the power `64 * k`.
pub proof fn lemma_weight_is_pow2(k: nat)
    ensures
        weight(k) == pow2(64 * k),
    decreases k,
{
    if k == 0 {
        lemma2_to64();
    } else {
        lemma_weight_is_pow2((k - 1) as nat);
        lemma_weight_succ((k - 1) as nat);
        lemma_base_is_pow2();
        lemma_pow2_adds(64 * (k - 1) as nat, 64);
        assert(64 * (k - 1) as nat + 64 == 64 * k);
    }
}

/// `64 - leading_zeros` is the bit length of a nonzero word.
pub proof fn lemma_leading_zeros_bounds(v: u64)
    requires
        v > 0,
    ensures
        0 <= u64_leading_zeros(v) < 64,
        pow2((63 - u64_leading_zeros(v)) as nat) <= v,
        (v as nat) < pow2((64 - u64_leading_zeros(v)) as nat),
    decreases v,
{
    reveal(u64_leading_zeros);
    let h = (v / 2) as u64;
    if h == 0 {
        assert(u64_leading_zeros(0) == 64);
        assert(v == 1);
        assert(u64_leading_zeros(v) == 63);
        lemma2_to64();
    } else {
        lemma_leading_zeros_bounds(h);
        let lz = u64_leading_zeros(h);
        assert(u64_leading_zeros(v) == lz - 1);
        lemma2_to64_rest();
        if lz == 0 {
            assert(h < 0x8000_0000_0000_0000);
        }
        lemma_pow2_unfold((64 - lz) as nat);
        lemma_pow2_unfold((65 - lz) as nat);
        assert((65 - lz) as nat == (64 - (lz - 1)) as nat);
        assert((64 - lz) as nat == (63 - (lz - 1)) as nat);
    }
}

/// Base monotonicity of powers.
pub proof fn lemma_pow_base_mono(a: nat, b: nat, e: nat)
    requires
        a <= b,
    ensures
        pow(a as int, e) <= pow(b as int, e),
        0 <= pow(a as int, e),
    decreases e,
{
    reveal(pow);
    if e > 0 {
        lemma_pow_base_mono(a, b, (e - 1) as nat);
        let pa = pow(a as int, (e - 1) as nat);
        let pb = pow(b as int, (e - 1) as nat);
        assert(pow(a as int, e) == a * pa);
        assert(pow(b as int, e) == b * pb);
        assert(0 <= a * pa <= b * pb) by (nonlinear_arith)
            requires
                a <= b,
                0 <= pa <= pb,
        ;
    }
}

/// Strict base monotonicity of positive powers.
pub proof fn lemma_pow_base_strict(a: nat, b: nat, e: nat)
    requires
        a < b,
        e >= 1,
    ensures
        pow(a as int, e) < pow(b as int, e),
    decreases e,
{
    reveal(pow);
    if e == 1 {
        lemma_pow1(a as int);
        lemma_pow1(b as int);
    } else {
        lemma_pow_base_strict(a, b, (e - 1) as nat);
        lemma_pow_base_mono(a, b, (e - 1) as nat);
        let pa = pow(a as int, (e - 1) as nat);
        let pb = pow(b as int, (e - 1) as nat);
        assert(pow(a as int, e) == a * pa);
        assert(pow(b as int, e) == b * pb);
        assert(a * pa < b * pb) by (nonlinear_arith)
            requires
                a < b,
                0 <= pa < pb,
        ;
    }
}

/// Shifting a limb left by `s` bits splits it into a low limb and a carry.
pub proof fn lemma_shl_limb(l: u64, s: u64, t: u64, c: u64)
    requires
        0 < s < 64,
        t + s == 64,
        c < pow2(s as nat),
    ensures
        ((l << s) | c) as nat == ((l << s) as nat) + c as nat,
        (l as nat) * pow2(s as nat) == ((l << s) as nat) + ((l >> t) as nat)
            * limb_base(),
        ((l >> t) as nat) < pow2(s as nat),
{
    lemma_u64_pow2_no_overflow(s as nat);
    lemma_u64_shl_is_mul(1u64, s);
    assert(1u64 * pow2(s as nat) == pow2(s as nat));
    assert(((l << s) | c) == (l << s) + c) by (bit_vector)
        requires
            0 < s < 64,
            c < (1u64 << s),
    ;
    assert((l >> t) < (1u64 << s)) by (bit_vector)
        requires
            0 < s < 64,
            t + s == 64,
    ;
    let w = l as u128;
    assert((w << (s as u128)) == ((l << s) as u128) + (((l >> t) as u128) << 64u128))
        by (bit_vector)
        requires
            0 < s < 64,
            t + s == 64,
            w == l as u128,
    ;
    assert((w << (s as u128)) == w * ((1u64 << s) as u128)) by (bit_vector)
        requires
            0 < s < 64,
            w == l as u128,
    ;
    let h = (l >> t) as u128;
    assert((h << 64u128) == h * 0x1_0000_0000_0000_0000u128) by (bit_vector)
        requires
            h <= 0xffff_ffff_ffff_ffffu128,
    ;
}

/// One step of halving from the top limb downwards.
pub proof fn lemma_shr1_limb(l: u64, carry_bit: u64)
    requires
        carry_bit <= 1,
    ensures
        ((l >> 1u64) | (carry_bit << 63u64)) as nat == (l as nat) / 2 + (carry_bit as nat)
            * 0x8000_0000_0000_0000,
        ((l & 1u64) << 63u64) as nat == ((l as nat) % 2) * 0x8000_0000_0000_0000,
        (l as nat) % 2 <= 1,
{
    assert(((l >> 1u64) | (carry_bit << 63u64)) == l / 2 + carry_bit * 0x8000_0000_0000_0000u64)
        by (bit_vector)
        requires
            carry_bit <= 1,
    ;
    assert(((l & 1u64) << 63u64) == (l % 2) * 0x8000_0000_0000_0000u64) by (bit_vector);
}

/// The low bit and the right shift of a 32-bit exponent.
pub proof fn lemma_u32_halve(e: u32)
    ensures
        (e & 1u32 == 1u32) == (e % 2 == 1),
        e >> 1u32 == e / 2,
{
    assert((e & 1u32 == 1u32) == (e % 2 == 1)) by (bit_vector);
    assert(e >> 1u32 == e / 2) by (bit_vector);
}

/// Powers of two do not decrease.
pub proof fn lemma_pow2_increases_nat(e1: nat, e2: nat)
    requires
        e1 <= e2,
    ensures
        pow2(e1) <= pow2(e2),
{
    if e1 < e2 {
        lemma_pow2_strictly_increases(e1, e2);
    }
}

} // verus!
