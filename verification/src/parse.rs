//! Reading a `BigFixed` from decimal text.
use vstd::prelude::*;
use vstd::string::StringSliceAdditionalSpecFns;
use vstd::utf8::{encode_scalar, encode_utf8};

use crate::error::ParseBigFixedError;
use crate::fixed::BigFixed;
use crate::format::zeros;
use crate::rounding::{lemma_ten_pow_add, lemma_ten_pow_pos, ten_pow};
use crate::signed::{signed_value, BigIntCore, Sign};
use crate::text::{all_digits, decimal_digit, decimal_value, digit_value, is_digit_char, string_of};
use crate::uint::BigUintCore;

verus! {

/// A character with the Unicode `White_Space` property.
pub open spec fn is_white_space(c: char) -> bool {
    let u = c as u32;
    ||| 0x09 <= u <= 0x0d
    ||| u == 0x20
    ||| u == 0x85
    ||| u == 0xa0
    ||| u == 0x1680
    ||| 0x2000 <= u <= 0x200a
    ||| u == 0x2028
    ||| u == 0x2029
    ||| u == 0x202f
    ||| u == 0x205f
    ||| u == 0x3000
}

/// The text without its leading white space.
pub open spec fn trim_start(s: Seq<char>) -> Seq<char>
    decreases s.len(),
{
    if s.len() > 0 && is_white_space(s[0]) {
        trim_start(s.drop_first())
    } else {
        s
    }
}

/// The text without its trailing white space.
pub open spec fn trim_end(s: Seq<char>) -> Seq<char>
    decreases s.len(),
{
    if s.len() > 0 && is_white_space(s.last()) {
        trim_end(s.drop_last())
    } else {
        s
    }
}

/// The text without white space at either end.
pub open spec fn trim(s: Seq<char>) -> Seq<char> {
    trim_end(trim_start(s))
}

/// No character is a point.
pub open spec fn point_free(s: Seq<char>) -> bool {
    forall|i: int| 0 <= i < s.len() ==> #[trigger] s[i] != '.'
}

/// `p` is the position of the first point.
pub open spec fn is_first_point(s: Seq<char>, p: int) -> bool {
    0 <= p < s.len() && s[p] == '.' && point_free(s.take(p))
}

/// The digits before the first point, those after it, and whether a second point follows.
/// Without a point, all of the text is before it.
pub open spec fn split_point(s: Seq<char>) -> (Seq<char>, Seq<char>, bool) {
    if point_free(s) {
        (s, Seq::<char>::empty(), false)
    } else {
        let p = choose|p: int| is_first_point(s, p);
        (s.take(p), s.skip(p + 1), !point_free(s.skip(p + 1)))
    }
}

/// The number of bytes of the UTF-8 encoding.
pub open spec fn utf8_len(s: Seq<char>) -> nat {
    encode_utf8(s).len()
}

/// The first character that is not an ASCII digit.
pub open spec fn first_non_digit(s: Seq<char>) -> char {
    s[choose|i: int| 0 <= i < s.len() && !is_digit_char(s[i]) && all_digits(s.take(i))]
}

/// What a text denotes at scale `scale`: the mantissa, or why there is none.
///
/// White space around the text is ignored. A leading `-` or `+` gives the sign. The digits
/// before and after an optional point make the mantissa, the fractional ones padded with
/// zeros to `scale` digits. A sign alone, a lone point and a second point are malformed;
/// more bytes after the point than `scale` are too many; then the first character that is
/// not an ASCII digit is reported.
pub open spec fn parsed(input: Seq<char>, scale: u32) -> Result<int, ParseBigFixedError> {
    let t = trim(input);
    if t.len() == 0 {
        Err(ParseBigFixedError::Empty)
    } else {
        let body = if t[0] == '-' || t[0] == '+' {
            t.skip(1)
        } else {
            t
        };
        let sign = if t[0] == '-' {
            Sign::Negative
        } else {
            Sign::Positive
        };
        let (int_part, frac_part, second_point) = split_point(body);
        if body.len() == 0 || second_point || (int_part.len() == 0 && frac_part.len() == 0) {
            Err(ParseBigFixedError::InvalidFormat)
        } else if utf8_len(frac_part) > scale {
            Err(
                ParseBigFixedError::FractionalDigitsExceedScale {
                    found: utf8_len(frac_part) as usize,
                    scale,
                },
            )
        } else if !all_digits(int_part + frac_part) {
            Err(ParseBigFixedError::InvalidCharacter(first_non_digit(int_part + frac_part)))
        } else {
            Ok(
                signed_value(
                    sign,
                    decimal_value(int_part + frac_part) * ten_pow((scale - frac_part.len()) as nat),
                ),
            )
        }
    }
}

/// Whether a character has the Unicode `White_Space` property.
fn is_white_space_char(c: char) -> (r: bool)
    ensures
        r == is_white_space(c),
{
    let u = c as u32;
    (0x09 <= u && u <= 0x0d) || u == 0x20 || u == 0x85 || u == 0xa0 || u == 0x1680 || (0x2000
        <= u && u <= 0x200a) || u == 0x2028 || u == 0x2029 || u == 0x202f || u == 0x205f || u
        == 0x3000
}

/// The number of bytes in the UTF-8 encoding of a character.
fn char_utf8_len(c: char) -> (r: u64)
    ensures
        r == encode_scalar(c as u32).len(),
        1 <= r <= 4,
{
    let u = c as u32;
    if u <= 0x7f {
        1
    } else if u <= 0x7ff {
        2
    } else if u <= 0xffff {
        proof {
            assert(!(0xD800 <= u <= 0xDFFF));
        }
        3
    } else {
        4
    }
}

/// The encoding of a text is that of its first character followed by that of the rest.
proof fn lemma_utf8_len_first(s: Seq<char>)
    requires
        s.len() > 0,
    ensures
        utf8_len(s) == encode_scalar(s[0] as u32).len() + utf8_len(s.drop_first()),
{
}

/// Every character takes at least one byte.
pub(crate) proof fn lemma_utf8_len_lower(s: Seq<char>)
    ensures
        utf8_len(s) >= s.len(),
    decreases s.len(),
{
    if s.len() > 0 {
        lemma_utf8_len_first(s);
        lemma_utf8_len_lower(s.drop_first());
        let c = s[0];
        let u = c as u32;
        assert(encode_scalar(u).len() >= 1);
    }
}

/// The bounds of the text without white space at either end.
fn trim_bounds(chars: &Vec<char>) -> (r: (usize, usize))
    ensures
        r.0 <= r.1 <= chars.len(),
        trim(chars@) == chars@.subrange(r.0 as int, r.1 as int),
{
    let n = chars.len();
    let ghost s = chars@;
    let mut lo: usize = 0;
    assert(s.subrange(0, n as int) =~= s);
    while lo < n && is_white_space_char(chars[lo])
        invariant
            n == s.len(),
            s == chars@,
            lo <= n,
            trim_start(s) == trim_start(s.subrange(lo as int, n as int)),
        decreases n - lo,
    {
        assert(s.subrange(lo as int, n as int).drop_first() =~= s.subrange(lo + 1, n as int));
        lo = lo + 1;
    }
    let ghost t = s.subrange(lo as int, n as int);
    let mut hi: usize = n;
    while hi > lo && is_white_space_char(chars[hi - 1])
        invariant
            n == s.len(),
            s == chars@,
            lo <= hi <= n,
            trim_start(s) == t,
            t == s.subrange(lo as int, n as int),
            trim_end(t) == trim_end(s.subrange(lo as int, hi as int)),
        decreases hi,
    {
        assert(s.subrange(lo as int, hi as int).drop_last() =~= s.subrange(lo as int, hi - 1));
        hi = hi - 1;
    }
    (lo, hi)
}

/// The position of the first point in `chars[start..end]`, if there is one.
fn find_point(chars: &Vec<char>, start: usize, end: usize) -> (r: Option<usize>)
    requires
        start <= end <= chars.len(),
    ensures
        r is None ==> point_free(chars@.subrange(start as int, end as int)),
        r matches Some(p) ==> start <= p < end && is_first_point(
            chars@.subrange(start as int, end as int),
            p - start,
        ),
{
    let ghost s = chars@.subrange(start as int, end as int);
    let mut i = start;
    while i < end
        invariant
            start <= i <= end <= chars.len(),
            s == chars@.subrange(start as int, end as int),
            point_free(s.take(i - start)),
        decreases end - i,
    {
        if chars[i] == '.' {
            return Some(i);
        }
        assert(point_free(s.take(i + 1 - start))) by {
            assert forall|k: int| 0 <= k < s.take(i + 1 - start).len() implies #[trigger] s.take(
                i + 1 - start,
            )[k] != '.' by {
                if k < i - start {
                    assert(s.take(i + 1 - start)[k] == s.take(i - start)[k]);
                }
            }
        }
        i = i + 1;
    }
    assert(s.take(end - start) =~= s);
    None
}

/// Only one position is the first point.
pub(crate) proof fn lemma_first_point_unique(s: Seq<char>, p: int)
    requires
        is_first_point(s, p),
    ensures
        (choose|q: int| is_first_point(s, q)) == p,
        !point_free(s),
{
    let q = choose|q: int| is_first_point(s, q);
    assert(is_first_point(s, q));
    if q < p {
        assert(s.take(p)[q] == s[q]);
    } else if p < q {
        assert(s.take(q)[p] == s[p]);
    }
}

/// Whether `chars[start..end]` takes more than `limit` bytes in UTF-8.
pub(crate) fn utf8_len_exceeds(chars: &Vec<char>, start: usize, end: usize, limit: u32) -> (r: bool)
    requires
        start <= end <= chars.len(),
    ensures
        r == (utf8_len(chars@.subrange(start as int, end as int)) > limit),
{
    let ghost s = chars@;
    let mut i = end;
    let mut count: u64 = 0;
    proof {
        assert(s.subrange(end as int, end as int) =~= Seq::<char>::empty());
    }
    while i > start && count <= limit as u64
        invariant
            start <= i <= end <= chars.len(),
            s == chars@,
            count == utf8_len(s.subrange(i as int, end as int)),
            count <= limit + 4,
        decreases i,
    {
        let width = char_utf8_len(chars[i - 1]);
        proof {
            let t = s.subrange(i - 1, end as int);
            lemma_utf8_len_first(t);
            assert(t.drop_first() =~= s.subrange(i as int, end as int));
        }
        count = count + width;
        i = i - 1;
    }
    if count > limit as u64 {
        proof {
            let whole = s.subrange(start as int, end as int);
            lemma_utf8_suffix_le(whole, (i - start) as int);
            assert(whole.skip(i - start) =~= s.subrange(i as int, end as int));
        }
        true
    } else {
        false
    }
}

/// A suffix takes no more bytes than the whole text.
proof fn lemma_utf8_suffix_le(s: Seq<char>, k: int)
    requires
        0 <= k <= s.len(),
    ensures
        utf8_len(s.skip(k)) <= utf8_len(s),
    decreases k,
{
    if k > 0 {
        lemma_utf8_len_first(s);
        lemma_utf8_suffix_le(s.drop_first(), k - 1);
        assert(s.drop_first().skip(k - 1) =~= s.skip(k));
    } else {
        assert(s.skip(0) =~= s);
    }
}

/// The characters `chars[start..end]`.
pub(crate) fn copy_range(chars: &Vec<char>, start: usize, end: usize) -> (r: Vec<char>)
    requires
        start <= end <= chars.len(),
    ensures
        r@ == chars@.subrange(start as int, end as int),
{
    let mut out: Vec<char> = Vec::new();
    for i in start..end
        invariant
            start <= end <= chars.len(),
            out@ == chars@.subrange(start as int, i as int),
    {
        out.push(chars[i]);
        assert(out@ =~= chars@.subrange(start as int, i + 1));
    }
    out
}

/// The first character of `chars` that is not an ASCII digit, if there is one.
fn find_non_digit(chars: &Vec<char>) -> (r: Option<char>)
    ensures
        r is None <==> all_digits(chars@),
        r matches Some(c) ==> c == first_non_digit(chars@),
{
    let ghost s = chars@;
    for i in 0..chars.len()
        invariant
            s == chars@,
            all_digits(s.take(i as int)),
    {
        if decimal_digit(chars[i]).is_none() {
            proof {
                let j = choose|j: int| 0 <= j < s.len() && !is_digit_char(s[j]) && all_digits(
                    s.take(j),
                );
                assert(0 <= i < s.len() && !is_digit_char(s[i as int]) && all_digits(
                    s.take(i as int),
                ));
                if j < i {
                    assert(s.take(i as int)[j] == s[j]);
                } else if i < j {
                    assert(s.take(j)[i as int] == s[i as int]);
                }
            }
            return Some(chars[i]);
        }
        assert(all_digits(s.take(i + 1))) by {
            assert forall|k: int| 0 <= k < i + 1 implies is_digit_char(#[trigger] s.take(i + 1)[k]) by {
                if k < i {
                    assert(s.take(i as int)[k] == s.take(i + 1)[k]);
                }
            }
        }
    }
    assert(s.take(s.len() as int) =~= s);
    None
}

/// Appending `k` zero digits multiplies by ten to the `k`.
pub(crate) proof fn lemma_decimal_zeros(x: Seq<char>, k: nat)
    ensures
        decimal_value(x + zeros(k)) == decimal_value(x) * ten_pow(k),
        all_digits(x) ==> all_digits(x + zeros(k)),
    decreases k,
{
    if k == 0 {
        assert(x + zeros(0) =~= x);
        lemma_ten_pow_pos(0);
        vstd::arithmetic::power::lemma_pow0(10);
    } else {
        lemma_decimal_zeros(x, (k - 1) as nat);
        let y = x + zeros(k);
        assert(y.drop_last() =~= x + zeros((k - 1) as nat));
        assert(y.last() == '0');
        assert(digit_value('0') == 0);
        lemma_ten_pow_add((k - 1) as nat, 1);
        vstd::arithmetic::power::lemma_pow1(10);
        assert(((k - 1) as nat + 1) == k);
        let p = ten_pow((k - 1) as nat);
        assert(decimal_value(x) * p * 10 == decimal_value(x) * (p * 10)) by (nonlinear_arith);
        if all_digits(x) {
            assert forall|i: int| 0 <= i < y.len() implies is_digit_char(#[trigger] y[i]) by {
                if i < x.len() + k - 1 {
                    assert(y[i] == (x + zeros((k - 1) as nat))[i]);
                }
            }
        }
    }
}

/// The bounds of the digits before and after the first point of `chars[start..end]`,
/// or `None` where a second point follows.
pub(crate) fn point_bounds(chars: &Vec<char>, start: usize, end: usize) -> (r: Option<(usize, usize)>)
    requires
        start <= end <= chars.len(),
    ensures
        r is None <==> split_point(chars@.subrange(start as int, end as int)).2,
        r matches Some(b) ==> {
            &&& start <= b.0 <= b.1 <= end
            &&& split_point(chars@.subrange(start as int, end as int)).0 == chars@.subrange(
                start as int,
                b.0 as int,
            )
            &&& split_point(chars@.subrange(start as int, end as int)).1 == chars@.subrange(
                b.1 as int,
                end as int,
            )
        },
{
    let ghost s = chars@;
    let ghost body = s.subrange(start as int, end as int);
    match find_point(chars, start, end) {
        None => {
            proof {
                assert(body =~= s.subrange(start as int, end as int));
                assert(s.subrange(end as int, end as int) =~= Seq::<char>::empty());
            }
            Some((end, end))
        },
        Some(p) => {
            proof {
                lemma_first_point_unique(body, p - start);
                assert(s.subrange(p + 1, end as int) =~= body.skip(p - start + 1));
                assert(s.subrange(start as int, p as int) =~= body.take(p - start));
            }
            match find_point(chars, p + 1, end) {
                Some(q) => {
                    proof {
                        assert(s.subrange(p + 1, end as int)[q - (p + 1)] == '.');
                    }
                    None
                },
                None => Some((p, p + 1)),
            }
        },
    }
}

/// The digits of `int_chars` then `frac_chars`, padded with zeros to `scale` fractional
/// digits, as a number; or the first character that is not an ASCII digit.
fn scaled_digits(int_chars: &Vec<char>, frac_chars: &Vec<char>, scale: u32) -> (r: Result<
    BigUintCore,
    char,
>)
    requires
        frac_chars.len() <= scale,
    ensures
        r is Err <==> !all_digits(int_chars@ + frac_chars@),
        r matches Err(c) ==> c == first_non_digit(int_chars@ + frac_chars@),
        r matches Ok(m) ==> m@ == decimal_value(int_chars@ + frac_chars@) * ten_pow(
            (scale - frac_chars.len()) as nat,
        ),
{
    let mut digits: Vec<char> = Vec::new();
    for i in 0..int_chars.len()
        invariant
            digits@ == int_chars@.take(i as int),
    {
        digits.push(int_chars[i]);
        assert(digits@ =~= int_chars@.take(i + 1));
    }
    assert(int_chars@.take(int_chars.len() as int) =~= int_chars@);
    let frac_len = frac_chars.len();
    for i in 0..frac_len
        invariant
            frac_len == frac_chars.len(),
            digits@ == int_chars@ + frac_chars@.take(i as int),
    {
        digits.push(frac_chars[i]);
        assert(digits@ =~= int_chars@ + frac_chars@.take(i + 1));
    }
    assert(frac_chars@.take(frac_len as int) =~= frac_chars@);
    match find_non_digit(&digits) {
        Some(c) => {
            return Err(c);
        },
        None => {},
    }
    let ghost joined = digits@;
    let fill = scale as usize - frac_len;
    for i in 0..fill
        invariant
            digits@ == joined + zeros(i as nat),
    {
        digits.push('0');
        assert(digits@ =~= joined + zeros((i + 1) as nat));
    }
    proof {
        lemma_decimal_zeros(joined, fill as nat);
    }
    match BigUintCore::from_decimal_chars(&digits) {
        Some(m) => Ok(m),
        None => Err('0'),
    }
}

impl<const SCALE: u32> BigFixed<SCALE> {
    /// The number that the text denotes, or why it denotes none (see `parsed`).
    pub fn parse_impl(input: &str) -> (r: Result<Self, ParseBigFixedError>)
        ensures
            match r {
                Ok(v) => parsed(input@, SCALE) == Ok::<int, ParseBigFixedError>(v@),
                Err(e) => parsed(input@, SCALE) == Err::<int, ParseBigFixedError>(e),
            },
    {
        let chars = crate::text::chars_of(input);
        let ghost s = chars@;
        let (lo, hi) = trim_bounds(&chars);
        let ghost t = s.subrange(lo as int, hi as int);
        if lo == hi {
            return Err(ParseBigFixedError::Empty);
        }
        let first = chars[lo];
        let negative = first == '-';
        let start = if first == '-' || first == '+' {
            lo + 1
        } else {
            lo
        };
        let ghost body = s.subrange(start as int, hi as int);
        proof {
            if first == '-' || first == '+' {
                assert(t.skip(1) =~= body);
            } else {
                assert(t =~= body);
            }
        }
        if start == hi {
            return Err(ParseBigFixedError::InvalidFormat);
        }
        let (int_end, frac_start) = match point_bounds(&chars, start, hi) {
            Some(b) => b,
            None => {
                return Err(ParseBigFixedError::InvalidFormat);
            },
        };
        if int_end == start && frac_start == hi {
            return Err(ParseBigFixedError::InvalidFormat);
        }
        if utf8_len_exceeds(&chars, frac_start, hi, SCALE) {
            let frac_chars = copy_range(&chars, frac_start, hi);
            let frac_text = string_of(&frac_chars);
            let found = frac_text.as_str().len();
            return Err(ParseBigFixedError::FractionalDigitsExceedScale { found, scale: SCALE });
        }
        let int_chars = copy_range(&chars, start, int_end);
        let frac_chars = copy_range(&chars, frac_start, hi);
        proof {
            lemma_utf8_len_lower(frac_chars@);
        }
        let magnitude = match scaled_digits(&int_chars, &frac_chars, SCALE) {
            Ok(m) => m,
            Err(c) => {
                return Err(ParseBigFixedError::InvalidCharacter(c));
            },
        };
        let sign = if negative {
            Sign::Negative
        } else {
            Sign::Positive
        };
        Ok(Self::from_mantissa(BigIntCore::from_parts(sign, magnitude)))
    }
}

impl<const SCALE: u32> core::str::FromStr for BigFixed<SCALE> {
    type Err = ParseBigFixedError;

    fn from_str(s: &str) -> (r: Result<Self, Self::Err>)
        ensures
            match r {
                Ok(v) => parsed(s@, SCALE) == Ok::<int, ParseBigFixedError>(v@),
                Err(e) => parsed(s@, SCALE) == Err::<int, ParseBigFixedError>(e),
            },
    {
        Self::parse_impl(s)
    }
}

} // verus!
