//! Tolerant reading of numeric text fields as exact decimals.

use vstd::prelude::*;
use crate::text::{all_digits, digit_value, digits_value, is_digit, lemma_digits_value_prefix};

verus! {

/// An exact decimal number: `mantissa / 10^scale`.
#[derive(Clone, Copy, Debug, PartialEq, Eq, Structural)]
pub struct Decimal {
    pub mantissa: i64,
    pub scale: u32,
}

pub open spec fn zero_spec() -> Decimal {
    Decimal { mantissa: 0, scale: 0 }
}

pub open spec fn is_space(c: char) -> bool {
    c == ' ' || c == '\t' || c == '\n' || c == '\r' || c == '\x0B' || c == '\x0C'
}

/// Position of the first character at or after `i` that is not ASCII
/// whitespace (the length when there is none).
pub open spec fn skip_spaces(s: Seq<char>, i: int) -> int
    decreases s.len() - i,
{
    if i < 0 || i >= s.len() {
        s.len() as int
    } else if is_space(s[i]) {
        skip_spaces(s, i + 1)
    } else {
        i
    }
}

/// End of the text once ASCII whitespace before `j` is dropped, not going
/// below `lo`.
pub open spec fn drop_spaces_before(s: Seq<char>, lo: int, j: int) -> int
    decreases j,
{
    if j <= lo || j <= 0 || j > s.len() {
        lo
    } else if is_space(s[j - 1]) {
        drop_spaces_before(s, lo, j - 1)
    } else {
        j
    }
}

/// The text without leading and trailing ASCII whitespace.
pub open spec fn trimmed(s: Seq<char>) -> Seq<char> {
    let lo = skip_spaces(s, 0);
    s.subrange(lo, drop_spaces_before(s, lo, s.len() as int))
}

/// Position of the first `.` at or after `i` (the length when there is none).
pub open spec fn dot_from(s: Seq<char>, i: int) -> int
    decreases s.len() - i,
{
    if i < 0 || i >= s.len() {
        s.len() as int
    } else if s[i] == '.' {
        i
    } else {
        dot_from(s, i + 1)
    }
}

/// A decimal numeral: an optional sign, digits, and optionally a point
/// followed by more digits, with at least one digit in all. Its value must
/// fit the mantissa once the point is taken out.
pub open spec fn decimal_of(t: Seq<char>) -> Option<Decimal> {
    let signed = t.len() > 0 && (t[0] == '-' || t[0] == '+');
    let neg = t.len() > 0 && t[0] == '-';
    let body = if signed {
        t.drop_first()
    } else {
        t
    };
    let p = dot_from(body, 0);
    let frac = if p < body.len() {
        body.skip(p + 1)
    } else {
        seq![]
    };
    let digits = body.take(p) + frac;
    let mag = digits_value(digits);
    if digits.len() > 0 && all_digits(digits) && mag <= i64::MAX && frac.len() <= u32::MAX {
        Some(Decimal { mantissa: (if neg { -mag } else { mag }) as i64, scale: frac.len() as u32 })
    } else {
        None
    }
}

/// Tolerant reading of a numeric text field: the numeral it holds once
/// surrounding whitespace is dropped, or zero when it holds none.
pub open spec fn coerced(s: Seq<char>) -> Decimal {
    match decimal_of(trimmed(s)) {
        Some(d) => d,
        None => zero_spec(),
    }
}

impl Decimal {
    pub fn zero() -> (r: Decimal)
        ensures
            r == zero_spec(),
    {
        Decimal { mantissa: 0, scale: 0 }
    }
}

fn is_space_char(c: char) -> (r: bool)
    ensures
        r == is_space(c),
{
    c == ' ' || c == '\t' || c == '\n' || c == '\r' || c == '\x0B' || c == '\x0C'
}

/// The characters of `s` with surrounding ASCII whitespace dropped.
fn trimmed_chars(s: &str) -> (r: Vec<char>)
    ensures
        r@ == trimmed(s@),
{
    let n = s.unicode_len();
    let mut lo: usize = 0;
    while lo < n && is_space_char(s.get_char(lo))
        invariant
            n == s@.len(),
            lo <= n,
            skip_spaces(s@, 0) == skip_spaces(s@, lo as int),
        decreases n - lo,
    {
        lo = lo + 1;
    }
    let mut hi: usize = n;
    while hi > lo && is_space_char(s.get_char(hi - 1))
        invariant
            n == s@.len(),
            lo <= hi <= n,
            lo == skip_spaces(s@, 0),
            drop_spaces_before(s@, lo as int, n as int) == drop_spaces_before(s@, lo as int, hi as int),
        decreases hi,
    {
        hi = hi - 1;
    }
    let mut r: Vec<char> = Vec::new();
    let mut i: usize = lo;
    while i < hi
        invariant
            n == s@.len(),
            lo <= i <= hi <= n,
            r@ == s@.subrange(lo as int, i as int),
        decreases hi - i,
    {
        r.push(s.get_char(i));
        i = i + 1;
        assert(r@ =~= s@.subrange(lo as int, i as int));
    }
    r
}

/// Reads a decimal numeral, ignoring surrounding ASCII whitespace; `None`
/// when the text is not one.
pub fn parse_decimal(s: &str) -> (r: Option<Decimal>)
    ensures
        r == decimal_of(trimmed(s@)),
{
    let v = trimmed_chars(s);
    let ghost t = v@;
    let n = v.len();
    let signed = n > 0 && (v[0] == '-' || v[0] == '+');
    let neg = n > 0 && v[0] == '-';
    let b0: usize = if signed {
        1
    } else {
        0
    };
    let ghost body = if signed {
        t.drop_first()
    } else {
        t
    };
    assert(body =~= t.subrange(b0 as int, n as int));
    let mut p: usize = b0;
    while p < n && v[p] != '.'
        invariant
            t == v@,
            n == t.len(),
            b0 <= p <= n,
            body == t.subrange(b0 as int, n as int),
            dot_from(body, 0) == dot_from(body, p - b0),
        decreases n - p,
    {
        p = p + 1;
    }
    let ghost q = p - b0;
    assert(dot_from(body, 0) == q);
    let ghost frac = if q < body.len() {
        body.skip(q + 1)
    } else {
        seq![]
    };
    let ghost digits = body.take(q) + frac;
    let total: usize = if p < n {
        n - b0 - 1
    } else {
        n - b0
    };
    assert(digits.len() == total);
    assert(t == trimmed(s@));
    assert(!all_digits(digits) ==> decimal_of(t).is_none());
    assert(all_digits(digits) && digits_value(digits) > i64::MAX ==> decimal_of(t).is_none());
    if total == 0 {
        return None;
    }
    let mut m: i64 = 0;
    let mut w: usize = 0;
    while w < total
        invariant
            t == v@,
            n == t.len(),
            b0 <= p <= n,
            q == p - b0,
            body == t.subrange(b0 as int, n as int),
            digits == body.take(q) + frac,
            frac == (if q < body.len() { body.skip(q + 1) } else { seq![] }),
            total == digits.len(),
            w <= total,
            !all_digits(digits) ==> decimal_of(t).is_none(),
            all_digits(digits) && digits_value(digits) > i64::MAX ==> decimal_of(t).is_none(),
            t == trimmed(s@),
            all_digits(digits.take(w as int)),
            m == digits_value(digits.take(w as int)),
            0 <= m,
        decreases total - w,
    {
        let c = if w < p - b0 {
            v[b0 + w]
        } else {
            v[b0 + w + 1]
        };
        assert(c == digits[w as int]);
        if !((c as u32) >= 48 && (c as u32) <= 57) {
            assert(!is_digit(digits[w as int]));
            assert(!all_digits(digits));
            return None;
        }
        let d = (c as u32 - 48) as i64;
        assert(digits.take(w + 1).drop_last() =~= digits.take(w as int));
        assert(digits.take(w + 1).last() == c);
        assert forall|j: int| 0 <= j < w + 1 implies is_digit(#[trigger] digits.take(w + 1)[j]) by {
            if j < w {
                assert(digits.take(w as int)[j] == digits.take(w + 1)[j]);
            }
        }
        if m > (9223372036854775807 - d) / 10 {
            proof {
                assert(digits_value(digits.take(w + 1)) == m * 10 + digit_value(c));
                if all_digits(digits) {
                    lemma_digits_value_prefix(digits, w + 1);
                }
            }
            return None;
        }
        m = m * 10 + d;
        w = w + 1;
    }
    assert(digits.take(total as int) =~= digits);
    let scale_len: usize = if p < n {
        n - p - 1
    } else {
        0
    };
    assert(scale_len == frac.len());
    if scale_len > 4294967295 {
        return None;
    }
    let mantissa = if neg {
        -m
    } else {
        m
    };
    Some(Decimal { mantissa, scale: scale_len as u32 })
}

/// Tolerant reading of a numeric text field: malformed text reads as zero.
pub fn coerce_decimal(s: &str) -> (r: Decimal)
    ensures
        r == coerced(s@),
{
    match parse_decimal(s) {
        Some(d) => d,
        None => Decimal::zero(),
    }
}

} // verus!
