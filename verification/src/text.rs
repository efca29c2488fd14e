//! Conversions between numbers and decimal text.
use vstd::arithmetic::div_mod::*;
use vstd::arithmetic::mul::*;
use vstd::prelude::*;

use crate::uint::BigUintCore;

verus! {

/// An ASCII decimal digit.
pub open spec fn is_digit_char(c: char) -> bool {
    48 <= (c as u32) <= 57
}

/// The value of an ASCII decimal digit.
pub open spec fn digit_value(c: char) -> nat {
    ((c as u32) - 48) as nat
}

/// The ASCII character of a decimal digit.
pub open spec fn digit_char(d: nat) -> char {
    ((d + 48) as u32) as char
}

/// Every character is an ASCII decimal digit.
pub open spec fn all_digits(s: Seq<char>) -> bool {
    forall|i: int| 0 <= i < s.len() ==> is_digit_char(#[trigger] s[i])
}

/// The number that a string of decimal digits denotes, most significant first.
pub open spec fn decimal_value(s: Seq<char>) -> nat
    decreases s.len(),
{
    if s.len() == 0 {
        0
    } else {
        decimal_value(s.drop_last()) * 10 + digit_value(s.last())
    }
}

/// The shortest decimal digits of a number: "0" for zero, else without leading zeros.
pub open spec fn decimal_string(n: nat) -> Seq<char>
    decreases n,
{
    if n < 10 {
        seq![digit_char(n)]
    } else {
        decimal_string(n / 10).push(digit_char(n % 10))
    }
}

/// The characters of a string slice, in order.
pub fn chars_of(s: &str) -> (v: Vec<char>)
    ensures
        v@ == s@,
{
    let mut v: Vec<char> = Vec::new();
    for c in it: s.chars()
        invariant
            v@ == it.seq().take(it.index() as int),
    {
        v.push(c);
    }
    v
}

/// `String::push`: appends one character to a string.
#[verifier::external_body]
fn push_char(s: &mut String, c: char)
    ensures
        final(s)@ == old(s)@.push(c),
{
    s.push(c);
}

/// A string holding the given characters.
pub fn string_of(chars: &Vec<char>) -> (s: String)
    ensures
        s@ == chars@,
{
    let mut s = String::new();
    for i in 0..chars.len()
        invariant
            s@ == chars@.take(i as int),
    {
        push_char(&mut s, chars[i]);
        assert(s@ =~= chars@.take(i + 1));
    }
    assert(chars@.take(chars.len() as int) =~= chars@);
    s
}

/// The decimal digit value of a character, if it is an ASCII digit.
pub fn decimal_digit(c: char) -> (r: Option<u32>)
    ensures
        r is Some <==> is_digit_char(c),
        r matches Some(d) ==> d == digit_value(c) && d < 10,
{
    let code = c as u32;
    if 48 <= code && code <= 57 {
        Some(code - 48)
    } else {
        None
    }
}

/// The ASCII character of a decimal digit.
pub fn digit_to_char(d: u32) -> (c: char)
    requires
        d < 10,
    ensures
        c == digit_char(d as nat),
        is_digit_char(c),
        digit_value(c) == d,
{
    let code = (48 + d) as u8;
    code as char
}

impl BigUintCore {
    /// The number that a string of decimal digits denotes; `None` if a character is not
    /// an ASCII digit. The empty string denotes zero.
    pub fn from_decimal_digits(digits: &str) -> (r: Option<Self>)
        ensures
            r is Some <==> all_digits(digits@),
            r matches Some(v) ==> v@ == decimal_value(digits@),
    {
        let chars = chars_of(digits);
        Self::from_decimal_chars(&chars)
    }

    /// The number that a sequence of decimal digit characters denotes.
    pub fn from_decimal_chars(chars: &Vec<char>) -> (r: Option<Self>)
        ensures
            r is Some <==> all_digits(chars@),
            r matches Some(v) ==> v@ == decimal_value(chars@),
    {
        if chars.len() == 0 {
            return Some(Self::zero());
        }
        let mut value = Self::zero();
        for i in 0..chars.len()
            invariant
                all_digits(chars@.take(i as int)),
                value@ == decimal_value(chars@.take(i as int)),
        {
            let digit = match decimal_digit(chars[i]) {
                Some(d) => d,
                None => {
                    return None;
                },
            };
            proof {
                assert(chars@.take(i + 1).drop_last() =~= chars@.take(i as int));
            }
            value = value.mul_small(10).add_small(digit);
            assert(all_digits(chars@.take(i + 1))) by {
                assert forall|k: int| 0 <= k < i + 1 implies is_digit_char(
                    #[trigger] chars@.take(i + 1)[k],
                ) by {
                    if k < i {
                        assert(chars@.take(i as int)[k] == chars@.take(i + 1)[k]);
                    }
                }
            }
        }
        assert(chars@.take(chars.len() as int) =~= chars@);
        Some(value)
    }

    /// The shortest decimal digits of the value.
    pub fn to_decimal_chars(&self) -> (r: Vec<char>)
        ensures
            r@ == decimal_string(self@),
    {
        if self.is_zero() {
            let mut r: Vec<char> = Vec::new();
            r.push('0');
            proof {
                assert(r@ =~= seq![digit_char(0)]);
            }
            return r;
        }
        let mut value = self.clone();
        let mut digits: Vec<char> = Vec::new();
        let ghost n = self@;
        while !value.is_zero()
            invariant
                value@ > 0 ==> decimal_string(n) == decimal_string(value@) + digits@,
                value@ == 0 ==> decimal_string(n) == digits@,
            decreases value@,
        {
            let (quotient, remainder) = value.div_rem_small(10);
            let c = digit_to_char(remainder);
            proof {
                let v = value@;
                lemma_fundamental_div_mod_converse(v as int, 10, quotient@ as int, remainder as int);
                if v >= 10 {
                    assert(decimal_string(v) == decimal_string(v / 10).push(digit_char(v % 10)));
                    assert(decimal_string(v / 10) + seq![c] + digits@ =~= decimal_string(v / 10)
                        + digits@.insert(0, c));
                } else {
                    assert(decimal_string(v) == seq![digit_char(v)]);
                    assert(seq![c] + digits@ =~= digits@.insert(0, c));
                }
            }
            digits.insert(0, c);
            value = quotient;
        }
        digits
    }

    /// The shortest decimal representation of the value.
    pub fn to_decimal_string(&self) -> (r: String)
        ensures
            r@ == decimal_string(self@),
    {
        string_of(&self.to_decimal_chars())
    }
}

} // verus!
