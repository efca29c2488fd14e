//! Properties that hold across the operations of the library.
use vstd::arithmetic::div_mod::*;
use vstd::arithmetic::mul::*;
use vstd::arithmetic::power::*;
use vstd::prelude::*;

use crate::fixed::{
    fixed_power,
    fixed_product,
    fixed_quotient,
    integer_rounded,
    power_steps,
    rounded_root,
    rounded_sqrt,
};
use crate::format::{
    fixed_text,
    trimmed_text,
    without_trailing_zeros,
    zeros,
};
use crate::parse::{
    lemma_decimal_zeros,
    is_first_point,
    lemma_first_point_unique,
    parsed,
    point_free,
    split_point,
    trim,
    utf8_len,
};
use crate::rounding::{
    lemma_floor_root,
    lemma_ten_pow_add,
    lemma_ten_pow_pos,
    rescaled,
    round_up_due,
    rounded_div,
    ten_pow,
    RoundingMode,
};
use crate::eval::decimal_exponent_of;
use crate::functions::working_mantissa;
use crate::series::{
    lemma_utf8_len_digits,
    working_scale_of,
};
use crate::steps::{
    exp_steps,
    exp_value,
    halving,
    ln_steps,
    ln_value,
    reduction_threshold,
    sqrt_reduction,
    squarings,
};
use crate::signed::{
    abs,
    lemma_sign_product,
    sign_of,
    signed_value,
    spec_sign_product,
    Sign,
};
use crate::text::{
    all_digits,
    decimal_string,
    decimal_value,
    digit_char,
    digit_value,
    is_digit_char,
};

verus! {

/// The shortest decimal digits of a number are digits, and denote it.
pub proof fn lemma_decimal_string_value(n: nat)
    ensures
        all_digits(decimal_string(n)),
        decimal_value(decimal_string(n)) == n,
        decimal_string(n).len() >= 1,
    decreases n,
{
    assert(decimal_value(Seq::<char>::empty()) == 0);
    if n < 10 {
        let s = decimal_string(n);
        assert(s == seq![digit_char(n)]);
        assert(s.drop_last() =~= Seq::<char>::empty());
        assert(digit_value(digit_char(n)) == n);
        assert(decimal_value(s) == decimal_value(s.drop_last()) * 10 + digit_value(s.last()));
    } else {
        lemma_decimal_string_value(n / 10);
        let p = decimal_string(n / 10);
        let s = decimal_string(n);
        assert(s == p.push(digit_char(n % 10)));
        assert(s.drop_last() =~= p);
        assert(digit_value(digit_char(n % 10)) == n % 10);
        lemma_fundamental_div_mod(n as int, 10);
        assert(decimal_value(s) == decimal_value(s.drop_last()) * 10 + digit_value(s.last()));
        assert forall|i: int| 0 <= i < s.len() implies is_digit_char(#[trigger] s[i]) by {
            if i < p.len() {
                assert(s[i] == p[i]);
            }
        }
    }
}

/// Leading zeros do not change what digits denote.
proof fn lemma_leading_zeros(k: nat, x: Seq<char>)
    ensures
        decimal_value(zeros(k) + x) == decimal_value(x),
        all_digits(x) ==> all_digits(zeros(k) + x),
    decreases k + x.len(),
{
    if x.len() == 0 {
        if k > 0 {
            lemma_leading_zeros((k - 1) as nat, x);
            assert((zeros(k) + x).drop_last() =~= zeros((k - 1) as nat) + x);
            assert(zeros((k - 1) as nat) + x =~= zeros((k - 1) as nat));
            assert(zeros(k) + x =~= zeros(k));
        } else {
            assert(zeros(0) + x =~= x);
        }
    } else {
        lemma_leading_zeros(k, x.drop_last());
        assert((zeros(k) + x).drop_last() =~= zeros(k) + x.drop_last());
        assert((zeros(k) + x).last() == x.last());
    }
    if all_digits(x) {
        assert forall|i: int| 0 <= i < (zeros(k) + x).len() implies is_digit_char(
            #[trigger] (zeros(k) + x)[i],
        ) by {
            if i >= k {
                assert((zeros(k) + x)[i] == x[i - k]);
            }
        }
    }
}

/// A text of digits, signs and points has no white space to trim.
proof fn lemma_trim_plain(t: Seq<char>)
    requires
        t.len() >= 1,
        t[0] == '-' || is_digit_char(t[0]),
        is_digit_char(t.last()),
    ensures
        trim(t) == t,
{
}

/// The facts about the unsigned text that reading it needs: how the first point splits
/// it, that the digits around the point are digits denoting the magnitude, and that the
/// fraction has as many bytes as the scale.
pub open spec fn unsigned_text_reads(u: Seq<char>, n: nat, s: nat) -> bool {
    let (i, f, second) = split_point(u);
    &&& u.len() >= 1
    &&& (u[0] == '0' || is_digit_char(u[0]))
    &&& is_digit_char(u.last())
    &&& !second
    &&& all_digits(i + f)
    &&& decimal_value(i + f) == n
    &&& f.len() == s
    &&& utf8_len(f) == s
    &&& !(i.len() == 0 && f.len() == 0)
    &&& s > 0 ==> u == i + seq!['.'] + f && i.len() >= 1
}

/// The digits of a fraction are digits of the joined text.
proof fn lemma_fraction_digits(i: Seq<char>, f: Seq<char>)
    requires
        all_digits(i + f),
    ensures
        all_digits(f),
        utf8_len(f) == f.len(),
{
    assert forall|k: int| 0 <= k < f.len() implies is_digit_char(#[trigger] f[k]) by {
        assert(f[k] == (i + f)[k + i.len()]);
    }
    lemma_utf8_len_digits(f);
}

/// The unsigned text at scale zero: the digits alone.
proof fn lemma_unsigned_scale_zero(n: nat)
    ensures
        unsigned_text_reads(decimal_string(n), n, 0),
{
    let d = decimal_string(n);
    lemma_decimal_string_value(n);
    assert(point_free(d));
    assert(split_point(d) == (d, Seq::<char>::empty(), false));
    assert(d + Seq::<char>::empty() =~= d);
    lemma_fraction_digits(d, Seq::<char>::empty());
}

/// The unsigned text of a magnitude with no more digits than the scale: `0.` and the
/// digits padded with zeros.
proof fn lemma_unsigned_short(n: nat, s: nat)
    requires
        s >= 1,
        decimal_string(n).len() <= s,
    ensures
        unsigned_text_reads(
            seq!['0', '.'] + zeros((s - decimal_string(n).len()) as nat) + decimal_string(n),
            n,
            s,
        ),
{
    let d = decimal_string(n);
    lemma_decimal_string_value(n);
    let len = d.len();
    let u = seq!['0', '.'] + zeros((s - len) as nat) + d;
    let i = seq!['0'];
    let f = zeros((s - len) as nat) + d;
    assert(point_free(u.take(1)));
    assert(is_first_point(u, 1));
    lemma_first_point_unique(u, 1);
    assert(u.take(1) =~= i);
    assert(u.skip(2) =~= f);
    assert(point_free(d));
    assert(point_free(f));
    assert(split_point(u) == (i, f, false));
    assert(i + f =~= zeros((s - len + 1) as nat) + d);
    lemma_leading_zeros((s - len + 1) as nat, d);
    lemma_fraction_digits(i, f);
    assert(u.last() == d.last());
    assert(u =~= i + seq!['.'] + f);
}

/// The unsigned text of a magnitude with more digits than the scale: the point inside.
proof fn lemma_unsigned_long(n: nat, s: nat)
    requires
        s >= 1,
        decimal_string(n).len() > s,
    ensures
        unsigned_text_reads(
            decimal_string(n).take(decimal_string(n).len() - s) + seq!['.'] + decimal_string(n).skip(
                decimal_string(n).len() - s,
            ),
            n,
            s,
        ),
{
    let d = decimal_string(n);
    lemma_decimal_string_value(n);
    let len = d.len();
    let k = len - s;
    let u = d.take(k) + seq!['.'] + d.skip(k);
    let i = d.take(k);
    let f = d.skip(k);
    assert(point_free(d));
    assert(point_free(u.take(k)));
    assert(is_first_point(u, k));
    lemma_first_point_unique(u, k);
    assert(u.take(k) =~= i);
    assert(u.skip(k + 1) =~= f);
    assert(point_free(f));
    assert(split_point(u) == (i, f, false));
    assert(i + f =~= d);
    lemma_fraction_digits(i, f);
    assert(u[0] == d[0]);
    assert(u.last() == d.last());
    assert(u =~= i + seq!['.'] + f);
}

/// Reading the text of a value gives the value back: formatting and parsing are inverse.
pub proof fn lemma_parse_text(m: int, s: u32)
    ensures
        parsed(fixed_text(m, s as nat), s) == Ok::<int, crate::error::ParseBigFixedError>(m),
{
    let n = abs(m);
    let d = decimal_string(n);
    lemma_decimal_string_value(n);
    let len = d.len();
    let prefix = if m < 0 {
        seq!['-']
    } else {
        Seq::<char>::empty()
    };
    let u = if s == 0 {
        d
    } else if len <= s {
        seq!['0', '.'] + zeros((s - len) as nat) + d
    } else {
        d.take(len - s) + seq!['.'] + d.skip(len - s)
    };
    if s == 0 {
        lemma_unsigned_scale_zero(n);
    } else if len <= s {
        lemma_unsigned_short(n, s as nat);
    } else {
        lemma_unsigned_long(n, s as nat);
    }
    assert(unsigned_text_reads(u, n, s as nat));
    let t = fixed_text(m, s as nat);
    assert(t =~= prefix + u);
    lemma_pow0(10);
    assert(ten_pow(0) == 1);
    lemma_trim_plain(t);
    if m < 0 {
        assert(t.skip(1) =~= u);
    } else {
        assert(t =~= u);
    }
    let (i, f, second) = split_point(u);
    assert((s - f.len()) as nat == 0);
    lemma_mul_basics(n as int);
    assert(decimal_value(i + f) * ten_pow((s - f.len()) as nat) == n);
    let sign = if m < 0 {
        Sign::Negative
    } else {
        Sign::Positive
    };
    assert(signed_value(sign, n) == m);
}

/// Trailing zeros appended to a text are all removed again.
proof fn lemma_strip_zeros(a: Seq<char>, k: nat)
    ensures
        without_trailing_zeros(a + zeros(k)) == without_trailing_zeros(a),
    decreases k,
{
    if k == 0 {
        assert(a + zeros(0) =~= a);
    } else {
        assert((a + zeros(k)).drop_last() =~= a + zeros((k - 1) as nat));
        assert((a + zeros(k)).last() == '0');
        lemma_strip_zeros(a, (k - 1) as nat);
    }
}

/// A text is what is left without its trailing zeros followed by those zeros; what is left
/// is empty or does not end in a zero.
proof fn lemma_zeros_split(x: Seq<char>)
    ensures
        without_trailing_zeros(x).len() <= x.len(),
        x == without_trailing_zeros(x) + zeros((x.len() - without_trailing_zeros(x).len()) as nat),
        without_trailing_zeros(x).len() == 0 || without_trailing_zeros(x).last() != '0',
    decreases x.len(),
{
    if x.len() > 0 && x.last() == '0' {
        lemma_zeros_split(x.drop_last());
        let w = without_trailing_zeros(x.drop_last());
        assert(without_trailing_zeros(x) == w);
        let k = (x.drop_last().len() - w.len()) as nat;
        assert(x.drop_last() == w + zeros(k));
        assert forall|j: int| 0 <= j < x.len() implies #[trigger] x[j] == (w + zeros(k + 1))[j] by {
            if j < x.len() - 1 {
                assert(x[j] == x.drop_last()[j]);
            }
        }
        assert(x =~= w + zeros(k + 1));
        assert((x.len() - w.len()) as nat == k + 1);
    } else {
        assert(x =~= x + zeros(0));
    }
}

/// A signed text of integer digits alone reads as those digits padded to the scale.
proof fn lemma_parse_integer_text(prefix: Seq<char>, i: Seq<char>, m: int, s: u32)
    requires
        prefix == (if m < 0 {
            seq!['-']
        } else {
            Seq::<char>::empty()
        }),
        i.len() >= 1,
        all_digits(i),
        decimal_value(i) * ten_pow(s as nat) == abs(m),
    ensures
        parsed(prefix + i, s) == Ok::<int, crate::error::ParseBigFixedError>(m),
{
    let t = prefix + i;
    assert(point_free(i));
    assert(split_point(i) == (i, Seq::<char>::empty(), false));
    assert(i + Seq::<char>::empty() =~= i);
    lemma_utf8_len_digits(Seq::<char>::empty());
    lemma_trim_plain(t);
    if m < 0 {
        assert(t.skip(1) =~= i);
    } else {
        assert(t =~= i);
    }
}

/// A signed text of digits, a point and a nonempty fraction reads as those digits padded
/// to the scale.
proof fn lemma_parse_fraction_text(prefix: Seq<char>, i: Seq<char>, g: Seq<char>, m: int, s: u32)
    requires
        prefix == (if m < 0 {
            seq!['-']
        } else {
            Seq::<char>::empty()
        }),
        i.len() >= 1,
        g.len() >= 1,
        g.len() <= s,
        all_digits(i),
        all_digits(g),
        decimal_value(i + g) * ten_pow((s - g.len()) as nat) == abs(m),
    ensures
        parsed(prefix + (i + seq!['.'] + g), s) == Ok::<int, crate::error::ParseBigFixedError>(m),
{
    let v = i + seq!['.'] + g;
    let t = prefix + v;
    assert(point_free(i));
    assert(point_free(g));
    assert(point_free(v.take(i.len() as int)));
    assert(is_first_point(v, i.len() as int));
    lemma_first_point_unique(v, i.len() as int);
    assert(v.take(i.len() as int) =~= i);
    assert(v.skip(i.len() as int + 1) =~= g);
    assert(split_point(v) == (i, g, false));
    assert(all_digits(i + g)) by {
        assert forall|j: int| 0 <= j < (i + g).len() implies is_digit_char(#[trigger] (i + g)[j]) by {
            if j >= i.len() {
                assert((i + g)[j] == g[j - i.len()]);
            }
        }
    }
    lemma_utf8_len_digits(g);
    assert(t.last() == g.last());
    lemma_trim_plain(t);
    if m < 0 {
        assert(t.skip(1) =~= v);
    } else {
        assert(t =~= v);
    }
}

/// The trimmed text of a value whose text is `prefix`, integer digits `i`, a point and
/// fractional digits `f` reads as the value.
proof fn lemma_parse_trimmed_parts(m: int, s: u32, prefix: Seq<char>, i: Seq<char>, f: Seq<char>)
    requires
        s > 0,
        prefix == (if m < 0 {
            seq!['-']
        } else {
            Seq::<char>::empty()
        }),
        fixed_text(m, s as nat) == prefix + i + seq!['.'] + f,
        i.len() >= 1,
        f.len() == s,
        all_digits(i + f),
        decimal_value(i + f) == abs(m),
    ensures
        parsed(trimmed_text(m, s as nat), s) == Ok::<int, crate::error::ParseBigFixedError>(m),
{
    let g = without_trailing_zeros(f);
    lemma_zeros_split(f);
    let k = (f.len() - g.len()) as nat;
    let head = prefix + i + seq!['.'];
    assert(fixed_text(m, s as nat) =~= head + g + zeros(k));
    lemma_strip_zeros(head + g, k);
    assert(all_digits(g)) by {
        assert forall|j: int| 0 <= j < g.len() implies is_digit_char(#[trigger] g[j]) by {
            assert(g[j] == f[j]);
            assert(f[j] == (i + f)[j + i.len()]);
        }
    }
    assert(all_digits(i)) by {
        assert forall|j: int| 0 <= j < i.len() implies is_digit_char(#[trigger] i[j]) by {
            assert(i[j] == (i + f)[j]);
        }
    }
    lemma_decimal_zeros(i + g, k);
    assert(i + g + zeros(k) =~= i + f);
    assert((s - g.len()) as nat == k);
    if g.len() == 0 {
        assert(without_trailing_zeros(head) == head);
        assert(trimmed_text(m, s as nat) =~= prefix + i);
        assert(i + g =~= i);
        lemma_parse_integer_text(prefix, i, m, s);
    } else {
        assert(without_trailing_zeros(head + g) == head + g);
        assert(trimmed_text(m, s as nat) =~= prefix + (i + seq!['.'] + g));
        lemma_parse_fraction_text(prefix, i, g, m, s);
    }
}

/// Reading the trimmed text of a value gives the value back: the dropped zeros are the
/// fractional digits that parsing pads again.
pub proof fn lemma_parse_trimmed_text(m: int, s: u32)
    ensures
        parsed(trimmed_text(m, s as nat), s) == Ok::<int, crate::error::ParseBigFixedError>(m),
{
    if s == 0 {
        lemma_parse_text(m, s);
    } else {
        let n = abs(m);
        let d = decimal_string(n);
        let len = d.len();
        let u = if len <= s {
            seq!['0', '.'] + zeros((s - len) as nat) + d
        } else {
            d.take(len - s) + seq!['.'] + d.skip(len - s)
        };
        if len <= s {
            lemma_unsigned_short(n, s as nat);
        } else {
            lemma_unsigned_long(n, s as nat);
        }
        let (i, f, second) = split_point(u);
        let prefix = if m < 0 {
            seq!['-']
        } else {
            Seq::<char>::empty()
        };
        assert(fixed_text(m, s as nat) =~= prefix + u);
        assert(prefix + u =~= prefix + i + seq!['.'] + f);
        lemma_parse_trimmed_parts(m, s, prefix, i, f);
    }
}

/// Rescaling to a finer scale and back gives the value back, whatever the rounding.
pub proof fn lemma_rescale_roundtrip(m: int, from: nat, to: nat, up: RoundingMode, down: RoundingMode)
    requires
        from <= to,
    ensures
        rescaled(rescaled(m, from, to, up), to, from, down) == m,
{
    if m != 0 && from != to {
        let k = (to - from) as nat;
        let t = ten_pow(k);
        lemma_ten_pow_pos(k);
        lemma_sign_product(m, t as int);
        lemma_fundamental_div_mod_converse((abs(m) * t) as int, t as int, abs(m) as int, 0);
    }
}

/// Rescaling commutes with negation under the modes that ignore the sign (to nearest,
/// towards zero, away from zero), and turns `Floor` into `Ceil` and back.
pub proof fn lemma_rescale_negation(m: int, from: nat, to: nat, mode: RoundingMode)
    ensures
        mode != RoundingMode::Floor && mode != RoundingMode::Ceil ==> rescaled(-m, from, to, mode)
            == -rescaled(m, from, to, mode),
        rescaled(-m, from, to, RoundingMode::Floor) == -rescaled(m, from, to, RoundingMode::Ceil),
        rescaled(-m, from, to, RoundingMode::Ceil) == -rescaled(m, from, to, RoundingMode::Floor),
{
    if m != 0 && from != to {
        if to > from {
            let k = ten_pow((to - from) as nat) as int;
            lemma_mul_unary_negation(m, k);
        } else {
            assert(abs(-m) == abs(m));
            if m > 0 {
                assert(sign_of(-m) == Sign::Negative && sign_of(m) == Sign::Positive);
            } else {
                assert(sign_of(-m) == Sign::Positive && sign_of(m) == Sign::Negative);
            }
        }
    }
}

/// The product of a negated mantissa is the negated product: multiplication rounds to
/// nearest, which does not depend on the sign.
pub proof fn lemma_product_negation(a: int, b: int, s: nat)
    ensures
        fixed_product(-a, b, s) == -fixed_product(a, b, s),
        fixed_product(a, -b, s) == -fixed_product(a, b, s),
{
    lemma_mul_unary_negation(a, b);
    lemma_mul_unary_negation(b, a);
    lemma_mul_is_commutative(a, b);
    lemma_mul_is_commutative(-b, a);
    lemma_rescale_negation(a * b, s + s, s, RoundingMode::HalfEven);
}

/// Multiplication does not depend on the order of its operands.
pub proof fn lemma_product_commutes(a: int, b: int, s: nat)
    ensures
        fixed_product(a, b, s) == fixed_product(b, a, s),
{
    lemma_mul_is_commutative(a, b);
}

/// At scale zero, products and powers are those of integers.
pub proof fn lemma_scale_zero_exact(a: int, b: int, e: nat)
    ensures
        fixed_product(a, b, 0) == a * b,
        fixed_power(a, e, 0) == pow(a, e),
{
    lemma_pow0(10);
    lemma_power_steps_integer(1, a, e);
    lemma_mul_basics(pow(a, e));
}

/// Exponentiation by squaring at scale zero multiplies the accumulator by the power.
proof fn lemma_power_steps_integer(acc: int, base: int, e: nat)
    ensures
        power_steps(acc, base, e, 0) == acc * pow(base, e),
    decreases e,
{
    lemma_pow0(10);
    assert(ten_pow(0) == 1);
    if e == 0 {
        lemma_pow0(base);
        lemma_mul_basics(acc);
    } else {
        let h = e / 2;
        let next = if e % 2 == 1 {
            acc * base
        } else {
            acc
        };
        assert(fixed_product(acc, base, 0) == acc * base);
        assert(fixed_product(base, base, 0) == base * base);
        lemma_pow_multiplies(base, 2, h);
        lemma_square_is_pow2(base);
        lemma_pow_adds(base, 1, 2 * h);
        lemma_pow1(base);
        if h == 0 {
            assert(e == 1);
        } else {
            lemma_power_steps_integer(next, base * base, h);
        }
        if e % 2 == 1 {
            assert(e == 1 + 2 * h);
            assert(acc * base * pow(base * base, h) == acc * pow(base, e)) by (nonlinear_arith)
                requires
                    pow(base, e) == base * pow(base, 2 * h),
                    pow(base, 2 * h) == pow(base * base, h),
            ;
        } else {
            assert(e == 2 * h);
        }
    }
}

/// The power zero is one and the power one is the value itself.
pub proof fn lemma_power_small(m: int, s: nat)
    ensures
        fixed_power(m, 0, s) == ten_pow(s),
        fixed_power(m, 1, s) == m,
{
    lemma_multiply_by_one(m, s);
}

/// Multiplying by one, or dividing by one, changes nothing.
pub proof fn lemma_multiply_by_one(m: int, s: nat)
    ensures
        fixed_product(ten_pow(s) as int, m, s) == m,
        fixed_product(m, ten_pow(s) as int, s) == m,
        forall|mode: RoundingMode| fixed_quotient(m, ten_pow(s) as int, s, mode) == m,
{
    let t = ten_pow(s) as int;
    lemma_ten_pow_pos(s);
    lemma_mul_is_commutative(t, m);
    lemma_sign_product(m, t);
    if s == 0 {
        lemma_pow0(10);
        lemma_mul_basics(m);
    }
    if m != 0 && s != 0 {
        assert(abs(t * m) == abs(m) * t);
        assert(sign_of(t * m) == sign_of(m));
        assert((s + s - s) as nat == s);
        assert(s + s != s);
        lemma_fundamental_div_mod_converse(abs(m) * t, t, abs(m) as int, 0);
    }
    if m == 0 {
        lemma_mul_basics(t);
    }
    assert forall|mode: RoundingMode| fixed_quotient(m, ten_pow(s) as int, s, mode) == m by {
        if m != 0 {
            lemma_fundamental_div_mod_converse(abs(m) * t, t, abs(m) as int, 0);
        } else {
            lemma_mul_basics(t);
        }
    }
}

/// The integers rounded towards negative and positive infinity bracket the value, one
/// unit apart unless the value is an integer, and rounding to nearest is within half a unit.
pub proof fn lemma_integer_rounding_bracket(m: int, s: nat)
    ensures
        integer_rounded(m, s, RoundingMode::Floor) <= m <= integer_rounded(m, s, RoundingMode::Ceil),
        integer_rounded(m, s, RoundingMode::Ceil) - integer_rounded(m, s, RoundingMode::Floor)
            <= ten_pow(s),
        integer_rounded(m, s, RoundingMode::Floor) % (ten_pow(s) as int) == 0,
        abs(integer_rounded(m, s, RoundingMode::Down)) <= abs(m),
        2 * abs(integer_rounded(m, s, RoundingMode::HalfEven) - m) <= ten_pow(s),
{
    let t = ten_pow(s) as int;
    lemma_ten_pow_pos(s);
    let a = abs(m) as int;
    let q = a / t;
    let r = a % t;
    lemma_fundamental_div_mod(a, t);
    lemma_mod_pos_bound(a, t);
    lemma_div_pos_is_pos(a, t);
    assert(a == q * t + r);
    if m < 0 {
        assert(-(q * t) >= m);
        assert(-((q + 1) * t) <= m) by (nonlinear_arith)
            requires
                a == q * t + r,
                r < t,
                m == -a,
        ;
        assert((-((q + 1) * t)) % t == 0) by {
            lemma_mod_multiples_basic(-(q + 1), t);
            assert(-((q + 1) * t) == (-(q + 1)) * t) by (nonlinear_arith);
        }
        assert((-(q * t)) % t == 0) by {
            lemma_mod_multiples_basic(-q, t);
            assert(-(q * t) == (-q) * t) by (nonlinear_arith);
        }
        assert((q + 1) * t == q * t + t) by (nonlinear_arith);
    } else {
        assert((q + 1) * t == q * t + t) by (nonlinear_arith);
        lemma_mod_multiples_basic(q, t);
    }
    assert(2 * r < t || 2 * r >= t);
}

/// The quotient is within one unit of the exact quotient, and within half a unit when
/// rounding to nearest.
pub proof fn lemma_quotient_error(a: int, b: int, s: nat, mode: RoundingMode)
    requires
        b != 0,
    ensures
        abs(fixed_quotient(a, b, s, mode) * b - a * ten_pow(s)) < abs(b),
        mode == RoundingMode::HalfEven || mode == RoundingMode::HalfUp ==> 2 * abs(
            fixed_quotient(a, b, s, mode) * b - a * ten_pow(s),
        ) <= abs(b),
{
    let t = ten_pow(s) as int;
    lemma_ten_pow_pos(s);
    let n = a * t;
    let d = abs(b) as int;
    let na = abs(n) as int;
    let q = na / d;
    let r = na % d;
    lemma_fundamental_div_mod(na, d);
    lemma_mod_pos_bound(na, d);
    lemma_div_pos_is_pos(na, d);
    let sign = spec_sign_product(sign_of(n), sign_of(b));
    let mag = rounded_div(abs(n), abs(b), sign, mode);
    let up = round_up_due(q as nat, r as nat, d as nat, sign, mode);
    assert(mag == q + if up {
        1int
    } else {
        0int
    });
    // the error of the magnitude against the exact magnitude
    assert(abs(mag * d - na) < d && ((mode == RoundingMode::HalfEven || mode == RoundingMode::HalfUp) ==> 2 * abs(mag * d - na) <= d)) by {
        assert(mag * d - na == (if up { 1int } else { 0int }) * d - r) by (nonlinear_arith)
            requires
                na == q * d + r,
                mag == q + (if up { 1int } else { 0int }),
        ;
    }
    lemma_sign_product(n, b);
    let f = fixed_quotient(a, b, s, mode);
    assert(f == signed_value(sign, mag));
    if n == 0 {
        assert(f == 0);
        lemma_mul_basics(b);
    } else if (n < 0) == (b < 0) {
        assert(f == mag);
        assert(f * b - n == mag * d - na || f * b - n == -(mag * d - na)) by (nonlinear_arith)
            requires
                f == mag,
                d == abs(b),
                na == abs(n),
                (n < 0) == (b < 0),
                n != 0,
        ;
    } else {
        assert(f == -mag);
        assert(f * b - n == mag * d - na || f * b - n == -(mag * d - na)) by (nonlinear_arith)
            requires
                f == -mag,
                d == abs(b),
                na == abs(n),
                (n < 0) != (b < 0),
                n != 0,
                b != 0,
        ;
    }
}

/// The square root rounded to nearest is the integer nearest to the exact root:
/// `4n <= (2r + 1)^2`, and `(2r - 1)^2 <= 4n` unless the root is zero.
pub proof fn lemma_sqrt_nearest(n: nat, r0: nat)
    requires
        r0 * r0 <= n < (r0 + 1) * (r0 + 1),
    ensures
        ({
            let r = rounded_sqrt(n, RoundingMode::HalfEven) as int;
            (r == 0 || (2 * r - 1) * (2 * r - 1) <= 4 * n) && 4 * n <= (2 * r + 1) * (2 * r + 1)
        }),
{
    lemma_square_is_pow2(r0 as int);
    lemma_square_is_pow2((r0 + 1) as int);
    lemma_floor_root(n, 2, r0);
    let rem = n - r0 * r0;
    let r = rounded_sqrt(n, RoundingMode::HalfEven) as int;
    if 4 * rem > 4 * r0 + 1 {
        assert(r == r0 + 1);
        assert((2 * r - 1) * (2 * r - 1) <= 4 * n && 4 * n <= (2 * r + 1) * (2 * r + 1))
            by (nonlinear_arith)
            requires
                r == r0 + 1,
                n == r0 * r0 + rem,
                4 * rem > 4 * r0 + 1,
                n < (r0 + 1) * (r0 + 1),
                r0 >= 0,
        ;
    } else {
        assert(r == r0);
        assert((r == 0 || (2 * r - 1) * (2 * r - 1) <= 4 * n) && 4 * n <= (2 * r + 1) * (2 * r + 1))
            by (nonlinear_arith)
            requires
                r == r0,
                n == r0 * r0 + rem,
                4 * rem <= 4 * r0 + 1,
                rem >= 0,
                r0 >= 0,
        ;
    }
}

/// Roots of exact powers are exact, whatever the rounding.
pub proof fn lemma_root_exact(r: nat, k: nat, mode: RoundingMode)
    requires
        k >= 1,
    ensures
        rounded_root(pow(r as int, k) as nat, k, mode) == r,
        rounded_sqrt(r * r, mode) == r,
{
    lemma_pow_positive_or_zero(r, k);
    lemma_pow_base_strict_step(r, k);
    lemma_floor_root(pow(r as int, k) as nat, k, r);
    lemma_square_is_pow2(r as int);
    lemma_square_is_pow2((r + 1) as int);
    lemma_pow_base_strict_step(r, 2);
    lemma_floor_root(r * r, 2, r);
}

/// A power of a natural number is a natural number.
proof fn lemma_pow_positive_or_zero(r: nat, k: nat)
    ensures
        pow(r as int, k) >= 0,
{
    if r > 0 {
        lemma_pow_positive(r as int, k);
    } else if k == 0 {
        lemma_pow0(0);
    } else {
        lemma0_pow(k);
    }
}

/// The next integer has a strictly larger positive power.
proof fn lemma_pow_base_strict_step(r: nat, k: nat)
    requires
        k >= 1,
    ensures
        pow(r as int, k) < pow((r + 1) as int, k),
{
    crate::bits::lemma_pow_base_strict(r, r + 1, k);
}

/// A root of a negated value is the negated root.
pub proof fn lemma_root_of_negation(m: int, s: u32, k: u32, mode: RoundingMode)
    ensures
        crate::fixed::fixed_root(-m, s, k, mode) == -crate::fixed::fixed_root(m, s, k, mode),
{
}

/// Rescaling zero gives zero, and one at a finer scale gives one.
proof fn lemma_rescale_zero_one(from: nat, to: nat, mode: RoundingMode)
    requires
        to <= from,
    ensures
        rescaled(0, from, to, mode) == 0,
        rescaled(ten_pow(from) as int, from, to, mode) == ten_pow(to),
{
    lemma_ten_pow_pos(from);
    lemma_ten_pow_pos(to);
    if from != to {
        let k = (from - to) as nat;
        lemma_ten_pow_pos(k);
        lemma_ten_pow_add(k, to);
        assert((k + to) as nat == from);
        lemma_fundamental_div_mod_converse(
            ten_pow(from) as int,
            ten_pow(k) as int,
            ten_pow(to) as int,
            0,
        );
    }
}

/// The exponential of zero is exactly one, and the logarithm of one exactly zero, at every
/// scale and guard and under every rounding.
pub proof fn lemma_exp_zero_ln_one(s: u32, guard_digits: u32, mode: RoundingMode)
    ensures
        rescaled(
            exp_value(working_mantissa(0, s, guard_digits), working_scale_of(s, guard_digits) as nat),
            working_scale_of(s, guard_digits) as nat,
            s as nat,
            mode,
        ) == ten_pow(s as nat),
        rescaled(
            ln_value(
                working_mantissa(ten_pow(s as nat) as int, s, guard_digits),
                working_scale_of(s, guard_digits),
            ),
            working_scale_of(s, guard_digits) as nat,
            s as nat,
            mode,
        ) == 0,
{
    let w = working_scale_of(s, guard_digits);
    let t = ten_pow(w as nat) as int;
    lemma_ten_pow_pos(w as nat);
    lemma_ten_pow_pos(s as nat);
    assert(w >= s);
    lemma_rescale_zero_one(w as nat, s as nat, mode);
    assert(working_mantissa(0, s, guard_digits) == 0);
    lemma_ten_pow_add((w - s) as nat, s as nat);
    assert(((w - s) as nat + s as nat) == w as nat);
    if w > s {
        assert(working_mantissa(ten_pow(s as nat) as int, s, guard_digits) == ten_pow(s as nat) * ten_pow((w - s) as nat));
    }
    assert(working_mantissa(ten_pow(s as nat) as int, s, guard_digits) == t) by (nonlinear_arith)
        requires
            w == s ==> working_mantissa(ten_pow(s as nat) as int, s, guard_digits) == ten_pow(s as nat),
            w > s ==> working_mantissa(ten_pow(s as nat) as int, s, guard_digits) == ten_pow(s as nat) * ten_pow((w - s) as nat),
            t == ten_pow((w - s) as nat) * ten_pow(s as nat),
            w >= s,
            w == s ==> t == ten_pow(s as nat),
    ;
    lemma_exp_value_zero(w as nat);
    lemma_ln_value_one(w);
}

/// The exponential of zero at a scale is one.
proof fn lemma_exp_value_zero(s: nat)
    ensures
        exp_value(0, s) == ten_pow(s),
{
    let t = ten_pow(s) as int;
    lemma_ten_pow_pos(s);
    let thr = reduction_threshold(s);
    assert(thr >= 0);
    assert(halving(0, thr, 0) == (0int, 0nat));
    assert(fixed_product(t, 0, s) == 0) by {
        lemma_mul_basics(t);
    }
    assert(squarings(exp_steps(t, t, 0, 1, crate::series::series_terms(s), s), 0, s) == t);
}

/// The logarithm of one at a scale is zero.
proof fn lemma_ln_value_one(s: u32)
    ensures
        ln_value(ten_pow(s as nat) as int, s) == 0,
{
    let t = ten_pow(s as nat) as int;
    lemma_ten_pow_pos(s as nat);
    crate::series::lemma_digit_count_power(s as nat);
    assert(decimal_exponent_of(t, s as nat) == 0);
    let thr = reduction_threshold(s as nat);
    assert(thr >= 0);
    assert(sqrt_reduction(t, t, thr, 0) == (t, 0nat));
    lemma_mul_basics(t);
    assert(fixed_quotient(0, t + t, s as nat, RoundingMode::HalfEven) == 0);
    assert(fixed_product(0, 0, s as nat) == 0);
    lemma_pow0(2);
    assert(ln_steps(0, 0, 0, 1, crate::series::series_terms(s as nat), s as nat) == 0);
}


} // verus!
