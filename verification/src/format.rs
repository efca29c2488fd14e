//! The decimal text of a `BigFixed`.
use vstd::prelude::*;

use crate::fixed::BigFixed;
use crate::signed::abs;
use crate::text::{decimal_string, string_of};

verus! {

/// `k` zero characters.
pub open spec fn zeros(k: nat) -> Seq<char> {
    Seq::new(k, |i: int| '0')
}

/// The text of the value with mantissa `m` at scale `s`: a minus sign for a negative
/// value, the integer digits (at least one), and for a positive scale a point followed by
/// exactly `s` fractional digits.
pub open spec fn fixed_text(m: int, s: nat) -> Seq<char> {
    let prefix = if m < 0 {
        seq!['-']
    } else {
        Seq::<char>::empty()
    };
    let d = decimal_string(abs(m));
    if s == 0 {
        prefix + d
    } else if d.len() <= s {
        prefix + seq!['0', '.'] + zeros((s - d.len()) as nat) + d
    } else {
        prefix + d.take(d.len() - s) + seq!['.'] + d.skip(d.len() - s)
    }
}

/// The text without its trailing zeros.
pub open spec fn without_trailing_zeros(t: Seq<char>) -> Seq<char>
    decreases t.len(),
{
    if t.len() > 0 && t.last() == '0' {
        without_trailing_zeros(t.drop_last())
    } else {
        t
    }
}

/// The text of the value at scale `s` with trailing fractional zeros removed, and the
/// point too where no fractional digit is left. At scale zero the text is unchanged.
pub open spec fn trimmed_text(m: int, s: nat) -> Seq<char> {
    if s == 0 {
        fixed_text(m, s)
    } else {
        let t = without_trailing_zeros(fixed_text(m, s));
        if t.len() > 0 && t.last() == '.' {
            t.drop_last()
        } else {
            t
        }
    }
}

/// The shortest decimal digits of a number are at least one.
proof fn lemma_decimal_string_nonempty(n: nat)
    ensures
        decimal_string(n).len() >= 1,
    decreases n,
{
    if n >= 10 {
        lemma_decimal_string_nonempty(n / 10);
    }
}

impl<const SCALE: u32> BigFixed<SCALE> {
    /// The characters of the value's text.
    fn to_chars(&self) -> (r: Vec<char>)
        ensures
            r@ == fixed_text(self@, SCALE as nat),
    {
        let mut out: Vec<char> = Vec::new();
        let mantissa = self.mantissa();
        if mantissa.sign() == crate::signed::Sign::Negative {
            out.push('-');
        }
        let ghost prefix = out@;
        let digits = mantissa.magnitude().to_decimal_chars();
        let ghost d = digits@;
        proof {
            lemma_decimal_string_nonempty(abs(self@));
        }
        let len = digits.len();
        let scale = SCALE as usize;
        if SCALE == 0 {
            for i in 0..len
                invariant
                    len == d.len(),
                    d == digits@,
                    out@ == prefix + d.take(i as int),
            {
                out.push(digits[i]);
                assert(out@ =~= prefix + d.take(i + 1));
            }
            assert(d.take(len as int) =~= d);
        } else if len <= scale {
            out.push('0');
            out.push('.');
            let ghost head = out@;
            let fill = scale - len;
            for i in 0..fill
                invariant
                    out@ == head + zeros(i as nat),
            {
                out.push('0');
                assert(out@ =~= head + zeros((i + 1) as nat));
            }
            let ghost padded = out@;
            for i in 0..len
                invariant
                    len == d.len(),
                    d == digits@,
                    out@ == padded + d.take(i as int),
            {
                out.push(digits[i]);
                assert(out@ =~= padded + d.take(i + 1));
            }
            assert(d.take(len as int) =~= d);
            assert(head =~= prefix + seq!['0', '.']);
        } else {
            let split = len - scale;
            for i in 0..split
                invariant
                    split <= len,
                    len == d.len(),
                    d == digits@,
                    out@ == prefix + d.take(i as int),
            {
                out.push(digits[i]);
                assert(out@ =~= prefix + d.take(i + 1));
            }
            out.push('.');
            let ghost head = out@;
            assert(head =~= prefix + d.take(split as int) + seq!['.']);
            for i in split..len
                invariant
                    split <= i <= len,
                    len == d.len(),
                    d == digits@,
                    out@ == head + d.subrange(split as int, i as int),
            {
                out.push(digits[i]);
                assert(out@ =~= head + d.subrange(split as int, i + 1));
            }
            assert(d.subrange(split as int, len as int) =~= d.skip(split as int));
        }
        out
    }

    /// The value's text: a minus sign when negative, the integer digits, and a point with
    /// `SCALE` fractional digits when the scale is positive.
    pub fn to_string(&self) -> (r: String)
        ensures
            r@ == fixed_text(self@, SCALE as nat),
    {
        string_of(&self.to_chars())
    }

    /// The value's text without trailing fractional zeros, nor a point with nothing after it.
    pub fn to_trimmed_string(&self) -> (r: String)
        ensures
            r@ == trimmed_text(self@, SCALE as nat),
    {
        if SCALE == 0 {
            return self.to_string();
        }
        let mut value = self.to_chars();
        let ghost text = value@;
        while value.len() > 0 && value[value.len() - 1] == '0'
            invariant
                without_trailing_zeros(text) == without_trailing_zeros(value@),
            decreases value.len(),
        {
            value.pop();
        }
        if value.len() > 0 && value[value.len() - 1] == '.' {
            value.pop();
        }
        string_of(&value)
    }
}

} // verus!
