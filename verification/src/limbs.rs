//! The mathematical model of little-endian sequences of 64-bit limbs, and the
//! arithmetic facts that the limb algorithms of `BigUintCore` rest on.
use vstd::arithmetic::div_mod::*;
use vstd::arithmetic::mul::*;
use vstd::prelude::*;

verus! {

/// The radix of one limb: 2^64.
pub open spec fn limb_base() -> nat {
    0x1_0000_0000_0000_0000nat
}

/// `limb_base()` raised to the power `i`: the weight of limb number `i`.
pub open spec fn weight(i: nat) -> nat
    decreases i,
{
    if i == 0 {
        1
    } else {
        limb_base() * weight((i - 1) as nat)
    }
}

/// The number that a little-endian sequence of limbs denotes.
pub open spec fn limbs_value(s: Seq<u64>) -> nat
    decreases s.len(),
{
    if s.len() == 0 {
        0
    } else {
        limbs_value(s.drop_last()) + (s.last() as nat) * weight((s.len() - 1) as nat)
    }
}

/// A limb sequence without high zero limbs.
pub open spec fn limbs_normalized(s: Seq<u64>) -> bool {
    s.len() > 0 ==> s.last() != 0
}

pub proof fn lemma_weight_pos(i: nat)
    ensures
        weight(i) >= 1,
    decreases i,
{
    if i > 0 {
        lemma_weight_pos((i - 1) as nat);
        lemma_mul_increases(limb_base() as int, weight((i - 1) as nat) as int);
        lemma_mul_is_commutative(limb_base() as int, weight((i - 1) as nat) as int);
    }
}

pub proof fn lemma_weight_add(i: nat, j: nat)
    ensures
        weight(i + j) == weight(i) * weight(j),
    decreases j,
{
    if j == 0 {
        assert(weight(i + 0) == weight(i));
        lemma_mul_basics(weight(i) as int);
    } else {
        lemma_weight_add(i, (j - 1) as nat);
        assert(weight(i + j) == limb_base() * weight((i + j - 1) as nat));
        assert((i + j - 1) as nat == i + (j - 1) as nat);
        lemma_mul_is_associative(
            limb_base() as int,
            weight(i) as int,
            weight((j - 1) as nat) as int,
        );
        lemma_mul_is_associative(
            weight(i) as int,
            limb_base() as int,
            weight((j - 1) as nat) as int,
        );
        lemma_mul_is_commutative(limb_base() as int, weight(i) as int);
    }
}

pub proof fn lemma_weight_succ(i: nat)
    ensures
        weight(i + 1) == weight(i) * limb_base(),
{
    lemma_weight_add(i, 1);
    assert(weight(1) == limb_base() * weight(0));
}

pub proof fn lemma_weight_mono(i: nat, j: nat)
    requires
        i <= j,
    ensures
        weight(i) <= weight(j),
{
    lemma_weight_add(i, (j - i) as nat);
    lemma_weight_pos((j - i) as nat);
    lemma_weight_pos(i);
    lemma_mul_increases(weight((j - i) as nat) as int, weight(i) as int);
    lemma_mul_is_commutative(weight((j - i) as nat) as int, weight(i) as int);
}

/// Appending a limb adds it at the next weight.
pub proof fn lemma_value_push(s: Seq<u64>, x: u64)
    ensures
        limbs_value(s.push(x)) == limbs_value(s) + (x as nat) * weight(s.len()),
{
    assert(s.push(x).drop_last() =~= s);
}

/// The prefix of length `i + 1` adds limb `i` to the prefix of length `i`.
pub proof fn lemma_value_take_step(s: Seq<u64>, i: int)
    requires
        0 <= i < s.len(),
    ensures
        limbs_value(s.take(i + 1)) == limbs_value(s.take(i)) + (s[i] as nat) * weight(i as nat),
{
    assert(s.take(i + 1).drop_last() =~= s.take(i));
}

pub proof fn lemma_value_take_all(s: Seq<u64>)
    ensures
        s.take(s.len() as int) == s,
{
    assert(s.take(s.len() as int) =~= s);
}

/// A sequence denotes less than the weight of its length.
pub proof fn lemma_value_bound(s: Seq<u64>)
    ensures
        limbs_value(s) < weight(s.len()),
    decreases s.len(),
{
    if s.len() > 0 {
        let n = (s.len() - 1) as nat;
        lemma_value_bound(s.drop_last());
        let w = weight(n);
        let l = s.last() as nat;
        assert(l <= limb_base() - 1);
        lemma_mul_inequality(l as int, limb_base() - 1, w as int);
        lemma_mul_is_distributive_sub_other_way(w as int, limb_base() as int, 1);
        lemma_weight_succ(n);
        lemma_mul_is_commutative(w as int, limb_base() as int);
    }
}

/// A normalized nonempty sequence is at least the weight of its top limb.
pub proof fn lemma_value_lower(s: Seq<u64>)
    requires
        s.len() > 0,
        limbs_normalized(s),
    ensures
        limbs_value(s) >= weight((s.len() - 1) as nat),
{
    let w = weight((s.len() - 1) as nat);
    lemma_weight_pos((s.len() - 1) as nat);
    lemma_mul_increases(s.last() as int, w as int);
    lemma_mul_is_commutative(s.last() as int, w as int);
}

/// A value splits into its low `m` limbs and its high limbs.
pub proof fn lemma_value_split(s: Seq<u64>, m: int)
    requires
        0 <= m <= s.len(),
    ensures
        limbs_value(s) == limbs_value(s.take(m)) + weight(m as nat) * limbs_value(s.skip(m)),
    decreases s.len(),
{
    if m == s.len() {
        lemma_value_take_all(s);
        assert(s.skip(m).len() == 0);
        lemma_mul_basics(weight(m as nat) as int);
    } else {
        let d = s.drop_last();
        let n = s.len() - 1;
        lemma_value_split(d, m);
        assert(d.take(m) =~= s.take(m));
        assert(s.skip(m) =~= d.skip(m).push(s.last()));
        lemma_value_push(d.skip(m), s.last());
        let hi = limbs_value(d.skip(m));
        let l = s.last() as nat;
        lemma_mul_is_distributive_add(weight(m as nat) as int, hi as int, (l * weight((n - m) as nat)) as int);
        lemma_weight_add(m as nat, (n - m) as nat);
        lemma_mul_is_associative(weight(m as nat) as int, l as int, weight((n - m) as nat) as int);
        lemma_mul_is_commutative(weight(m as nat) as int, l as int);
        lemma_mul_is_associative(l as int, weight(m as nat) as int, weight((n - m) as nat) as int);
        assert((m as nat + (n - m) as nat) == n as nat);
    }
}

/// The lowest limb plus the base times the rest.
pub proof fn lemma_value_head(s: Seq<u64>)
    requires
        s.len() > 0,
    ensures
        limbs_value(s) == (s[0] as nat) + limb_base() * limbs_value(s.skip(1)),
{
    lemma_value_split(s, 1);
    assert(s.take(1).drop_last() =~= Seq::<u64>::empty());
    assert(weight(0) == 1);
    assert(weight(1) == limb_base() * weight(0));
    assert(limbs_value(Seq::<u64>::empty()) == 0);
    assert(s.take(1).last() == s[0]);
    lemma_mul_basics(s[0] as int);
    assert(limbs_value(s.take(1)) == s[0] as nat);
}

/// Replacing limb `k` changes the value by the difference at weight `k`.
pub proof fn lemma_value_update(s: Seq<u64>, k: int, x: u64)
    requires
        0 <= k < s.len(),
    ensures
        limbs_value(s.update(k, x)) + (s[k] as nat) * weight(k as nat) == limbs_value(s) + (
        x as nat) * weight(k as nat),
    decreases s.len(),
{
    let t = s.update(k, x);
    if k == s.len() - 1 {
        assert(t.drop_last() =~= s.drop_last());
    } else {
        lemma_value_update(s.drop_last(), k, x);
        assert(t.drop_last() =~= s.drop_last().update(k, x));
    }
}

/// Removing a zero top limb keeps the value.
pub proof fn lemma_value_drop_zero(s: Seq<u64>)
    requires
        s.len() > 0,
        s.last() == 0,
    ensures
        limbs_value(s.drop_last()) == limbs_value(s),
{
    lemma_mul_basics(weight((s.len() - 1) as nat) as int);
}

/// A sequence of zeros denotes zero.
pub proof fn lemma_value_zeros(s: Seq<u64>)
    requires
        forall|i: int| 0 <= i < s.len() ==> s[i] == 0,
    ensures
        limbs_value(s) == 0,
    decreases s.len(),
{
    if s.len() > 0 {
        lemma_value_zeros(s.drop_last());
        lemma_value_drop_zero(s);
    }
}

/// Sequences that agree above limb `k` and differ at `k` compare as their limbs at `k`.
pub proof fn lemma_value_compare_at(s: Seq<u64>, t: Seq<u64>, k: int)
    requires
        s.len() == t.len(),
        0 <= k < s.len(),
        s.skip(k + 1) == t.skip(k + 1),
        s[k] < t[k],
    ensures
        limbs_value(s) < limbs_value(t),
{
    lemma_value_split(s, k + 1);
    lemma_value_split(t, k + 1);
    lemma_value_take_step(s, k);
    lemma_value_take_step(t, k);
    assert(s.take(k).len() == k);
    lemma_value_bound(s.take(k));
    let w = weight(k as nat);
    lemma_mul_inequality(s[k] as int + 1, t[k] as int, w as int);
    lemma_mul_is_distributive_add_other_way(w as int, s[k] as int, 1);
}

/// Normalized sequences of different lengths compare as their lengths.
pub proof fn lemma_value_compare_len(s: Seq<u64>, t: Seq<u64>)
    requires
        limbs_normalized(t),
        s.len() < t.len(),
    ensures
        limbs_value(s) < limbs_value(t),
{
    lemma_value_bound(s);
    lemma_value_lower(t);
    lemma_weight_mono(s.len(), (t.len() - 1) as nat);
}

/// Two normalized sequences denote the same value exactly when they are equal.
pub proof fn lemma_value_injective(s: Seq<u64>, t: Seq<u64>)
    requires
        limbs_normalized(s),
        limbs_normalized(t),
        limbs_value(s) == limbs_value(t),
    ensures
        s == t,
    decreases s.len(),
{
    if s.len() < t.len() {
        lemma_value_compare_len(s, t);
    } else if t.len() < s.len() {
        lemma_value_compare_len(t, s);
    } else {
        lemma_values_equal_same_length(s, t);
    }
}

/// Two sequences of one length that denote one value are equal.
pub proof fn lemma_values_equal_same_length(s: Seq<u64>, t: Seq<u64>)
    requires
        s.len() == t.len(),
        limbs_value(s) == limbs_value(t),
    ensures
        s == t,
    decreases s.len(),
{
    if s.len() > 0 {
        lemma_value_head(s);
        lemma_value_head(t);
        let a = limbs_value(s.skip(1));
        let b = limbs_value(t.skip(1));
        // s[0] == t[0] because both are the value modulo the base.
        lemma_fundamental_div_mod_converse(
            limbs_value(s) as int,
            limb_base() as int,
            a as int,
            s[0] as int,
        );
        lemma_fundamental_div_mod_converse(
            limbs_value(t) as int,
            limb_base() as int,
            b as int,
            t[0] as int,
        );
        lemma_mul_is_commutative(limb_base() as int, a as int);
        lemma_mul_is_commutative(limb_base() as int, b as int);
        lemma_values_equal_same_length(s.skip(1), t.skip(1));
        assert(s =~= t) by {
            assert forall|i: int| 0 <= i < s.len() implies s[i] == t[i] by {
                if i > 0 {
                    assert(s[i] == s.skip(1)[i - 1]);
                    assert(t[i] == t.skip(1)[i - 1]);
                }
            }
        }
    }
}

/// The limb at `i`, or zero outside the sequence.
pub open spec fn limb_at(s: Seq<u64>, i: int) -> u64 {
    if 0 <= i < s.len() {
        s[i]
    } else {
        0
    }
}

/// The value of the limbs below position `i`.
pub open spec fn prefix_value(s: Seq<u64>, i: int) -> nat {
    if i <= s.len() {
        limbs_value(s.take(i))
    } else {
        limbs_value(s)
    }
}

pub proof fn lemma_prefix_step(s: Seq<u64>, i: int)
    requires
        0 <= i,
    ensures
        prefix_value(s, i + 1) == prefix_value(s, i) + (limb_at(s, i) as nat) * weight(i as nat),
{
    if i < s.len() {
        lemma_value_take_step(s, i);
    } else {
        if i == s.len() {
            lemma_value_take_all(s);
        }
        lemma_mul_basics(weight(i as nat) as int);
    }
}

pub proof fn lemma_prefix_zero(s: Seq<u64>)
    ensures
        prefix_value(s, 0) == 0,
{
    assert(s.take(0) =~= Seq::<u64>::empty());
}

pub proof fn lemma_prefix_full(s: Seq<u64>, i: int)
    requires
        i >= s.len(),
    ensures
        prefix_value(s, i) == limbs_value(s),
{
    lemma_value_take_all(s);
}

pub proof fn lemma_value_single(v: u64)
    ensures
        limbs_value(seq![v]) == v as nat,
{
    assert(seq![v].drop_last() =~= Seq::<u64>::empty());
    assert(limbs_value(Seq::<u64>::empty()) == 0);
    assert(weight(0) == 1);
    assert(seq![v].last() == v);
    lemma_mul_basics(v as int);
}

} // verus!
