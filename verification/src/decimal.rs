//! Fixed-point decimal numbers.
//!
//! Hidden variables, thresholds and increments are decimal quantities. They are
//! held exactly, as a signed count of millionths, so that every operation on
//! them has an integer meaning.

pub mod literal;

use vstd::prelude::*;

verus! {

/// Number of units that make up one whole.
pub const UNITS_PER_ONE: i64 = 1_000_000;

/// Number of decimal places that a value keeps.
pub const FRACTION_DIGITS: usize = 6;

/// Numerator of the factor by which a value is scaled before it is cut down to
/// a state bucket; the factor is this number of hundredths.
pub const BUCKET_FACTOR_HUNDREDTHS: i64 = 2499;

/// The nearest `i64` to `v`.
pub open spec fn clamp(v: int) -> int {
    if v > i64::MAX {
        i64::MAX as int
    } else if v < i64::MIN {
        i64::MIN as int
    } else {
        v
    }
}

/// The quotient of `a` by a positive `b`, rounded toward zero.
pub open spec fn quotient_toward_zero(a: int, b: int) -> int
    recommends
        b > 0,
{
    if a >= 0 {
        a / b
    } else {
        -((-a) / b)
    }
}

/// A signed decimal number with six decimal places, stored as a count of
/// millionths.
#[derive(Clone, Copy, Debug, PartialEq, Eq, Structural)]
pub struct Decimal {
    pub units: i64,
}

impl View for Decimal {
    type V = int;

    open spec fn view(&self) -> int {
        self.units as int
    }
}

impl DeepView for Decimal {
    type V = int;

    open spec fn deep_view(&self) -> int {
        self.units as int
    }
}

/// The whole part of a count of millionths.
pub open spec fn whole_part(units: int) -> int {
    quotient_toward_zero(units, UNITS_PER_ONE as int)
}

/// The bucket into which a count of millionths falls when search states are
/// compared: the value times 24.99, rounded toward zero.
pub open spec fn bucket_of(units: int) -> int {
    quotient_toward_zero(units * BUCKET_FACTOR_HUNDREDTHS, 100 * UNITS_PER_ONE)
}

/// Rounds a wide quotient toward zero.
fn divide_toward_zero(a: i128, b: i128) -> (q: i128)
    requires
        b > 0,
        a > i128::MIN,
    ensures
        q == quotient_toward_zero(a as int, b as int),
{
    if a >= 0 {
        a / b
    } else {
        let m: i128 = -a;
        -(m / b)
    }
}

impl Decimal {
    /// The number that is `units` millionths.
    pub fn from_units(units: i64) -> (d: Decimal)
        ensures
            d@ == units,
    {
        Decimal { units }
    }

    /// The count of millionths.
    pub fn units(self) -> (u: i64)
        ensures
            u == self@,
    {
        self.units
    }

    /// The whole number `n`, or the nearest representable number where `n` is
    /// out of range.
    pub fn from_whole(n: i64) -> (d: Decimal)
        ensures
            d@ == clamp(n * UNITS_PER_ONE),
    {
        assert(-0x8000_0000_0000_0000 * 1_000_000 <= n * 1_000_000 <= 0x8000_0000_0000_0000
            * 1_000_000) by (nonlinear_arith)
            requires
                -0x8000_0000_0000_0000 <= n < 0x8000_0000_0000_0000,
        ;
        let wide: i128 = (n as i128) * (UNITS_PER_ONE as i128);
        Decimal { units: narrow(wide) }
    }

    /// The whole part: the number rounded toward zero.
    pub fn trunc(self) -> (n: i64)
        ensures
            n == whole_part(self@),
    {
        let q: i128 = divide_toward_zero(self.units as i128, UNITS_PER_ONE as i128);
        assert(i64::MIN <= q <= i64::MAX) by (nonlinear_arith)
            requires
                q == quotient_toward_zero(self.units as int, 1_000_000),
                i64::MIN <= self.units <= i64::MAX,
        ;
        q as i64
    }

    /// The sum, or the nearest representable number where the sum is out of
    /// range.
    pub fn saturating_add(self, other: Decimal) -> (d: Decimal)
        ensures
            d@ == clamp(self@ + other@),
    {
        let wide: i128 = (self.units as i128) + (other.units as i128);
        Decimal { units: narrow(wide) }
    }

    /// The number with its sign reversed, or the greatest representable number
    /// for the least one.
    pub fn saturating_neg(self) -> (d: Decimal)
        ensures
            d@ == clamp(-self@),
    {
        let wide: i128 = -(self.units as i128);
        Decimal { units: narrow(wide) }
    }

    /// The state bucket of the number.
    pub fn quantize(self) -> (q: i64)
        ensures
            q == bucket_of(self@),
    {
        assert(-0x8000_0000_0000_0000 * 2499 <= self.units * 2499 <= 0x8000_0000_0000_0000 * 2499)
            by (nonlinear_arith)
            requires
                -0x8000_0000_0000_0000 <= self.units < 0x8000_0000_0000_0000,
        ;
        let scaled: i128 = (self.units as i128) * (BUCKET_FACTOR_HUNDREDTHS as i128);
        let q: i128 = divide_toward_zero(scaled, 100 * (UNITS_PER_ONE as i128));
        assert(i64::MIN <= q <= i64::MAX) by (nonlinear_arith)
            requires
                q == quotient_toward_zero(self.units * 2499, 100_000_000),
                i64::MIN <= self.units <= i64::MAX,
        ;
        q as i64
    }
}

/// The nearest `i64` to a wide integer.
pub fn narrow(wide: i128) -> (n: i64)
    ensures
        n == clamp(wide as int),
{
    if wide > i64::MAX as i128 {
        i64::MAX
    } else if wide < i64::MIN as i128 {
        i64::MIN
    } else {
        wide as i64
    }
}

} // verus!
