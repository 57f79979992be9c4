//! Decimal literals: how a number is written, and how it is read.
//!
//! A literal is a mantissa of digits with at most one decimal point among
//! them, behind at most one sign and before at most one exponent. It is read
//! exactly, to the sixth decimal place.

use vstd::prelude::*;
use crate::decimal::{clamp, narrow, Decimal, FRACTION_DIGITS};
use crate::text::{chars_of, find_char, first_at, lemma_first_at};

verus! {

/// Whether `c` is a decimal digit.
pub open spec fn is_digit(c: char) -> bool {
    '0' <= c <= '9'
}

/// The number that a decimal digit stands for.
pub open spec fn digit(c: char) -> int {
    c as int - '0' as int
}

/// Whether `s` consists of decimal digits.
pub open spec fn all_digits(s: Seq<char>) -> bool {
    forall|i: int| 0 <= i < s.len() ==> is_digit(#[trigger] s[i])
}

/// The number that a string of decimal digits stands for.
pub open spec fn number(s: Seq<char>) -> int
    decreases s.len(),
{
    if s.len() == 0 {
        0
    } else {
        number(s.drop_last()) * 10 + digit(s.last())
    }
}

/// The first `len` digits of `digits`, with zeros where there are fewer.
pub open spec fn padded(digits: Seq<char>, len: int) -> Seq<char> {
    Seq::new(
        if len > 0 {
            len as nat
        } else {
            0
        },
        |i: int|
            if i < digits.len() {
                digits[i]
            } else {
                '0'
            },
    )
}

/// The number that the first `len` digits of `digits` stand for, with zeros
/// where there are fewer: the number of `digits` with its decimal point
/// moved.
pub open spec fn shifted(digits: Seq<char>, len: int) -> int {
    number(padded(digits, len))
}

/// Above this bound an accumulated number is no longer tracked exactly.
pub const CEILING: i128 = 0x1_0000_0000_0000_0000;

/// `n`, as far as it is tracked: itself up to the ceiling, else the ceiling.
pub open spec fn capped(n: int) -> int {
    if n >= CEILING {
        CEILING as int
    } else {
        n
    }
}

/// The first place at which an exponent mark, `e` or `E`, stands.
pub open spec fn mark_at(s: Seq<char>) -> Option<int> {
    match (first_at(s, seq!['e']), first_at(s, seq!['E'])) {
        (Some(a), Some(b)) => Some(
            if a <= b {
                a
            } else {
                b
            },
        ),
        (Some(a), None) => Some(a),
        (None, Some(b)) => Some(b),
        (None, None) => None,
    }
}

/// The power of ten that the text behind an exponent mark stands for: a
/// string of digits, or one behind a sign. A power beyond the ceiling counts
/// as the ceiling.
pub open spec fn exponent(s: Seq<char>) -> Option<int> {
    let negative = s.len() > 0 && s[0] == '-';
    let digits = if s.len() > 0 && (s[0] == '-' || s[0] == '+') {
        s.drop_first()
    } else {
        s
    };
    if digits.len() > 0 && all_digits(digits) {
        Some(
            if negative {
                -capped(number(digits))
            } else {
                capped(number(digits))
            },
        )
    } else {
        None
    }
}

/// The count of millionths that a mantissa stands for when it is scaled by
/// the power `power` of ten, digits beyond the sixth decimal place cut off.
///
/// A mantissa is a string of digits, a decimal point, and a string of
/// digits. The point and either string may be missing, but not both strings.
pub open spec fn scaled(mantissa: Seq<char>, power: int) -> Option<int> {
    let (whole, fraction) = match first_at(mantissa, seq!['.']) {
        Some(i) => (mantissa.subrange(0, i), mantissa.subrange(i + 1, mantissa.len() as int)),
        None => (mantissa, Seq::empty()),
    };
    if all_digits(whole) && all_digits(fraction) && whole.len() + fraction.len() > 0 {
        Some(shifted(whole + fraction, whole.len() + FRACTION_DIGITS + power))
    } else {
        None
    }
}

/// The count of millionths that an unsigned decimal literal stands for,
/// digits beyond the sixth decimal place cut off.
///
/// A literal is a mantissa, or a mantissa and an exponent: a mark, `e` or
/// `E`, and a power of ten.
pub open spec fn magnitude(s: Seq<char>) -> Option<int> {
    match mark_at(s) {
        Some(i) => match exponent(s.subrange(i + 1, s.len() as int)) {
            Some(power) => scaled(s.subrange(0, i), power),
            None => None,
        },
        None => scaled(s, 0),
    }
}

/// The count of millionths that a decimal literal stands for: an unsigned
/// literal, or one behind a sign.
pub open spec fn literal(s: Seq<char>) -> Option<int> {
    if s.len() > 0 && s[0] == '-' {
        match magnitude(s.drop_first()) {
            Some(m) => Some(-m),
            None => None,
        }
    } else if s.len() > 0 && s[0] == '+' {
        magnitude(s.drop_first())
    } else {
        magnitude(s)
    }
}

/// The number that a decimal literal is read as: its value, digits beyond the
/// sixth decimal place cut off, or the nearest representable number where
/// that is out of range. Nothing for a text that is no decimal literal.
pub open spec fn parsed(s: Seq<char>) -> Option<int> {
    match literal(s) {
        Some(v) => Some(clamp(v)),
        None => None,
    }
}

/// Whether `text[lo..hi]` consists of decimal digits.
fn digits_only(text: &Vec<char>, lo: usize, hi: usize) -> (r: bool)
    requires
        lo <= hi <= text.len(),
    ensures
        r == all_digits(text@.subrange(lo as int, hi as int)),
{
    let ghost s = text@.subrange(lo as int, hi as int);
    let mut at: usize = lo;
    while at < hi
        invariant
            lo <= at <= hi <= text.len(),
            s == text@.subrange(lo as int, hi as int),
            forall|j: int| 0 <= j < at - lo ==> is_digit(#[trigger] s[j]),
        decreases hi - at,
    {
        let c: char = text[at];
        if !('0' <= c && c <= '9') {
            assert(!is_digit(s[at - lo]));
            return false;
        }
        at = at + 1;
    }
    true
}

/// The number that the digits `text[lo..hi]` stand for, up to the ceiling.
fn digits_number(text: &Vec<char>, lo: usize, hi: usize) -> (n: i128)
    requires
        lo <= hi <= text.len(),
        all_digits(text@.subrange(lo as int, hi as int)),
    ensures
        n == capped(number(text@.subrange(lo as int, hi as int))),
        0 <= n,
{
    let ghost s = text@.subrange(lo as int, hi as int);
    let mut n: i128 = 0;
    let mut at: usize = lo;
    assert(s.take(0) =~= Seq::empty());
    while at < hi
        invariant
            lo <= at <= hi <= text.len(),
            s == text@.subrange(lo as int, hi as int),
            all_digits(s),
            n == capped(number(s.take(at - lo))),
            0 <= number(s.take(at - lo)),
        decreases hi - at,
    {
        let c: char = text[at];
        proof {
            let next = s.take(at - lo + 1);
            assert(next.drop_last() =~= s.take(at - lo));
            assert(next.last() == c);
            assert(is_digit(s[at - lo]));
        }
        let d: i128 = (c as u32 - '0' as u32) as i128;
        n = n * 10 + d;
        if n > CEILING {
            n = CEILING;
        }
        at = at + 1;
    }
    assert(s.take(at - lo) =~= s);
    n
}

/// One more digit in front of the padding: the number of the first `k + 1`
/// digits is ten times that of the first `k`, and the next digit.
pub proof fn lemma_padded_step(digits: Seq<char>, k: int)
    requires
        0 <= k,
    ensures
        number(padded(digits, k + 1)) == number(padded(digits, k)) * 10 + digit(
            if k < digits.len() {
                digits[k]
            } else {
                '0'
            },
        ),
{
    assert(padded(digits, k + 1).drop_last() =~= padded(digits, k));
}

/// The padded number does not shrink as it gets longer, and is never
/// negative.
pub proof fn lemma_padded_grows(digits: Seq<char>, k: int, len: int)
    requires
        all_digits(digits),
        0 <= k <= len,
    ensures
        0 <= number(padded(digits, k)) <= number(padded(digits, len)),
    decreases len - k, k,
{
    if k > 0 {
        lemma_padded_grows(digits, k - 1, k - 1);
        lemma_padded_step(digits, k - 1);
        if k - 1 < digits.len() {
            assert(is_digit(digits[k - 1]));
        }
    }
    if k < len {
        lemma_padded_grows(digits, k + 1, len);
        lemma_padded_step(digits, k);
        if k < digits.len() {
            assert(is_digit(digits[k]));
        }
    }
}

/// A padded number that is zero behind the last digit stays zero however
/// long the padding.
pub proof fn lemma_padded_zero(digits: Seq<char>, k: int, len: int)
    requires
        digits.len() <= k <= len,
        number(padded(digits, k)) == 0,
    ensures
        number(padded(digits, len)) == 0,
    decreases len - k,
{
    if k < len {
        lemma_padded_step(digits, k);
        lemma_padded_zero(digits, k + 1, len);
    }
}

/// The number that the first `len` of the digits stand for, with zeros where
/// there are fewer, up to the ceiling.
fn digits_shifted(digits: &Vec<char>, len: i128) -> (n: i128)
    requires
        all_digits(digits@),
    ensures
        n == capped(shifted(digits@, len as int)),
        0 <= n,
{
    let mut n: i128 = 0;
    let mut k: usize = 0;
    proof {
        lemma_padded_grows(digits@, 0, 0);
    }
    while k < digits.len() && (k as i128) < len
        invariant
            k <= digits.len(),
            k <= len || k == 0,
            all_digits(digits@),
            n == capped(number(padded(digits@, k as int))),
            0 <= n,
        decreases digits.len() - k,
    {
        let c: char = digits[k];
        proof {
            lemma_padded_step(digits@, k as int);
            lemma_padded_grows(digits@, k as int, k as int);
            assert(is_digit(digits@[k as int]));
        }
        let d: i128 = (c as u32 - '0' as u32) as i128;
        n = n * 10 + d;
        if n > CEILING {
            n = CEILING;
        }
        k = k + 1;
    }
    if len <= 0 {
        assert(padded(digits@, len as int) =~= padded(digits@, 0));
        return n;
    }
    let mut j: i128 = k as i128;
    while j < len && 0 < n && n < CEILING
        invariant
            digits@.len() <= j || j == len,
            0 <= j <= len,
            all_digits(digits@),
            n == capped(number(padded(digits@, j as int))),
            0 <= n,
        decreases len - j,
    {
        proof {
            lemma_padded_step(digits@, j as int);
        }
        n = n * 10;
        if n > CEILING {
            n = CEILING;
        }
        j = j + 1;
    }
    proof {
        if j < len {
            if n == 0 {
                lemma_padded_zero(digits@, j as int, len as int);
            } else {
                lemma_padded_grows(digits@, j as int, len as int);
            }
        }
    }
    n
}

/// The first place in `text[lo..hi]` at which an exponent mark stands.
fn find_mark(text: &Vec<char>, lo: usize, hi: usize) -> (r: Option<usize>)
    requires
        lo <= hi <= text.len(),
    ensures
        match r {
            Some(at) => lo <= at < hi && mark_at(text@.subrange(lo as int, hi as int)) == Some(
                at - lo,
            ),
            None => mark_at(text@.subrange(lo as int, hi as int)) is None,
        },
{
    let ghost s = text@.subrange(lo as int, hi as int);
    let small = find_char(text, lo, hi, 'e');
    let capital = find_char(text, lo, hi, 'E');
    proof {
        if let Some(at) = small {
            lemma_first_at(s, seq!['e'], at - lo);
        }
        if let Some(at) = capital {
            lemma_first_at(s, seq!['E'], at - lo);
        }
    }
    match (small, capital) {
        (Some(a), Some(b)) => Some(
            if a <= b {
                a
            } else {
                b
            },
        ),
        (Some(a), None) => Some(a),
        (None, Some(b)) => Some(b),
        (None, None) => None,
    }
}

/// The power of ten that `text[lo..hi]` stands for.
fn read_exponent(text: &Vec<char>, lo: usize, hi: usize) -> (r: Option<i128>)
    requires
        lo <= hi <= text.len(),
    ensures
        r matches Some(power) ==> -CEILING <= power <= CEILING,
        match exponent(text@.subrange(lo as int, hi as int)) {
            Some(power) => r matches Some(read) && read == power,
            None => r is None,
        },
{
    let ghost s = text@.subrange(lo as int, hi as int);
    let negative = lo < hi && text[lo] == '-';
    let signed = lo < hi && (text[lo] == '-' || text[lo] == '+');
    let from: usize = if signed {
        lo + 1
    } else {
        lo
    };
    proof {
        if signed {
            assert(s.drop_first() =~= text@.subrange(from as int, hi as int));
        }
    }
    if from == hi || !digits_only(text, from, hi) {
        return None;
    }
    let power: i128 = digits_number(text, from, hi);
    if negative {
        Some(-power)
    } else {
        Some(power)
    }
}

/// The characters `text[lo..mid]` and, behind them, `text[from..hi]`.
fn gather(text: &Vec<char>, lo: usize, mid: usize, from: usize, hi: usize) -> (digits: Vec<char>)
    requires
        lo <= mid <= text.len(),
        from <= hi <= text.len(),
    ensures
        digits@ == text@.subrange(lo as int, mid as int) + text@.subrange(from as int, hi as int),
{
    let mut digits: Vec<char> = Vec::new();
    let mut at: usize = lo;
    while at < mid
        invariant
            lo <= at <= mid <= text.len(),
            digits@ == text@.subrange(lo as int, at as int),
        decreases mid - at,
    {
        digits.push(text[at]);
        assert(digits@ =~= text@.subrange(lo as int, at + 1));
        at = at + 1;
    }
    let mut at: usize = from;
    assert(digits@ =~= text@.subrange(lo as int, mid as int) + text@.subrange(
        from as int,
        from as int,
    ));
    while at < hi
        invariant
            lo <= mid <= text.len(),
            from <= at <= hi <= text.len(),
            digits@ == text@.subrange(lo as int, mid as int) + text@.subrange(
                from as int,
                at as int,
            ),
        decreases hi - at,
    {
        digits.push(text[at]);
        assert(digits@ =~= text@.subrange(lo as int, mid as int) + text@.subrange(
            from as int,
            at + 1,
        ));
        at = at + 1;
    }
    digits
}

/// The count of millionths that the mantissa `text[lo..hi]` stands for when
/// it is scaled by the power `power` of ten, up to the ceiling.
fn read_scaled(text: &Vec<char>, lo: usize, hi: usize, power: i128) -> (r: Option<i128>)
    requires
        lo <= hi <= text.len(),
        -CEILING <= power <= CEILING,
    ensures
        match scaled(text@.subrange(lo as int, hi as int), power as int) {
            Some(m) => r matches Some(read) && read == capped(m) && 0 <= m,
            None => r is None,
        },
{
    let ghost mantissa = text@.subrange(lo as int, hi as int);
    let dot = find_char(text, lo, hi, '.');
    let (whole_end, fraction_start): (usize, usize) = match dot {
        Some(at) => (at, at + 1),
        None => (hi, hi),
    };
    let ghost whole = text@.subrange(lo as int, whole_end as int);
    let ghost fraction = text@.subrange(fraction_start as int, hi as int);
    proof {
        match dot {
            Some(at) => {
                lemma_first_at(mantissa, seq!['.'], at - lo);
                assert(mantissa.subrange(0, at - lo) =~= whole);
                assert(mantissa.subrange(at - lo + 1, mantissa.len() as int) =~= fraction);
            },
            None => {
                assert(fraction =~= Seq::empty());
            },
        }
    }
    if !digits_only(text, lo, whole_end) || !digits_only(text, fraction_start, hi) {
        return None;
    }
    if (whole_end - lo) + (hi - fraction_start) == 0 {
        return None;
    }
    let digits = gather(text, lo, whole_end, fraction_start, hi);
    let len: i128 = (whole_end - lo) as i128 + (FRACTION_DIGITS as i128) + power;
    proof {
        assert forall|i: int| 0 <= i < digits@.len() implies is_digit(#[trigger] digits@[i]) by {
            if i < whole.len() {
                assert(is_digit(whole[i]));
            } else {
                assert(is_digit(fraction[i - whole.len()]));
            }
        }
        if len > 0 {
            lemma_padded_grows(digits@, 0, len as int);
        } else {
            lemma_padded_grows(digits@, 0, 0);
            assert(padded(digits@, len as int) =~= padded(digits@, 0));
        }
    }
    Some(digits_shifted(&digits, len))
}

/// The count of millionths that the unsigned literal `text[lo..hi]` stands
/// for, exact up to `i64::MAX` and greater than that beyond it.
fn read_magnitude(text: &Vec<char>, lo: usize, hi: usize) -> (r: Option<i128>)
    requires
        lo <= hi <= text.len(),
    ensures
        match magnitude(text@.subrange(lo as int, hi as int)) {
            Some(m) => r matches Some(u) && 0 <= m && (u == m || (u > i64::MAX && m > i64::MAX)),
            None => r is None,
        },
{
    let ghost s = text@.subrange(lo as int, hi as int);
    match find_mark(text, lo, hi) {
        Some(at) => {
            proof {
                assert(s.subrange(0, at - lo) =~= text@.subrange(lo as int, at as int));
                assert(s.subrange(at - lo + 1, s.len() as int) =~= text@.subrange(
                    at + 1,
                    hi as int,
                ));
            }
            match read_exponent(text, at + 1, hi) {
                Some(power) => read_scaled(text, lo, at, power),
                None => None,
            }
        },
        None => read_scaled(text, lo, hi, 0),
    }
}

impl Decimal {
    /// Reads the decimal literal `text[lo..hi]`.
    pub fn parse(text: &Vec<char>, lo: usize, hi: usize) -> (r: Option<Decimal>)
        requires
            lo <= hi <= text.len(),
        ensures
            r.deep_view() == parsed(text@.subrange(lo as int, hi as int)),
    {
        let ghost s = text@.subrange(lo as int, hi as int);
        let negative = lo < hi && text[lo] == '-';
        let signed = lo < hi && (text[lo] == '-' || text[lo] == '+');
        let from: usize = if signed {
            lo + 1
        } else {
            lo
        };
        proof {
            if signed {
                assert(s.drop_first() =~= text@.subrange(from as int, hi as int));
            }
        }
        match read_magnitude(text, from, hi) {
            None => None,
            Some(m) => {
                let wide: i128 = if negative {
                    -m
                } else {
                    m
                };
                Some(Decimal { units: narrow(wide) })
            },
        }
    }

    /// Reads a decimal literal: digits with at most one decimal point among
    /// them, behind at most one sign, and before at most one exponent.
    pub fn from_str(s: &str) -> (r: Option<Decimal>)
        ensures
            r.deep_view() == parsed(s@),
    {
        let text = chars_of(s);
        assert(text@.subrange(0, text@.len() as int) =~= s@);
        Decimal::parse(&text, 0, text.len())
    }
}

} // verus!
