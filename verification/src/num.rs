//! Exact fixed-point numbers with nine decimal places.
//!
//! Prices, quantities and volumes are all carried as a count of billionths,
//! so every comparison and every sum in the book is exact integer arithmetic.

use vstd::prelude::*;

verus! {

/// Number of base units in 1.0: values carry nine decimal places.
pub const UNIT: i128 = 1_000_000_000;

/// Largest magnitude, in units, that the book accepts for a single price,
/// tick size or order quantity: one billion whole units. The cap keeps every
/// aggregate volume inside `i128` and every price inside the exact range of
/// the decimal backend used for tick snapping.
pub const AMOUNT_CAP: i128 = 1_000_000_000_000_000_000;

/// 10^e as a mathematical integer.
pub open spec fn pow10(e: nat) -> int
    decreases e,
{
    if e == 0 {
        1
    } else {
        10 * pow10((e - 1) as nat)
    }
}

/// An exact fixed-point number: the value is `units / 10^9`.
#[derive(Clone, Copy, PartialEq, Eq, Structural, Debug)]
pub struct Num {
    units: i128,
}

impl View for Num {
    type V = int;

    /// The mathematical value of the number, as a count of billionths.
    closed spec fn view(&self) -> int {
        self.units as int
    }
}

impl Num {
    /// Builds a value from a raw count of billionths.
    pub fn from_units(units: i128) -> (n: Num)
        ensures
            n@ == units as int,
    {
        Num { units }
    }

    /// Builds a whole number.
    pub fn from_int(whole: i64) -> (n: Num)
        ensures
            n@ == whole as int * UNIT as int,
    {
        Num { units: (whole as i128) * UNIT }
    }

    /// Builds `coefficient * 10^(-scale)`: `from_scaled(100012, 3)` is 100.012.
    pub fn from_scaled(coefficient: i64, scale: u32) -> (n: Num)
        requires
            scale <= 9,
        ensures
            n@ == coefficient as int * pow10((9 - scale) as nat),
    {
        let factor: i128 = pow10_units(9 - scale);
        proof {
            assert(i64::MIN as int * UNIT as int <= coefficient as int * factor
                <= i64::MAX as int * UNIT as int) by (nonlinear_arith)
                requires
                    i64::MIN <= coefficient <= i64::MAX,
                    1 <= factor <= UNIT as int,
            ;
        }
        Num { units: (coefficient as i128) * factor }
    }

    /// The raw count of billionths.
    pub fn units(&self) -> (u: i128)
        ensures
            u as int == self@,
    {
        self.units
    }
}

/// 10^e as an i128, for exponents up to nine.
fn pow10_units(e: u32) -> (r: i128)
    requires
        e <= 9,
    ensures
        r as int == pow10(e as nat),
        1 <= r <= UNIT,
{
    proof {
        reveal_with_fuel(pow10, 10);
    }
    if e == 0 {
        1
    } else if e == 1 {
        10
    } else if e == 2 {
        100
    } else if e == 3 {
        1_000
    } else if e == 4 {
        10_000
    } else if e == 5 {
        100_000
    } else if e == 6 {
        1_000_000
    } else if e == 7 {
        10_000_000
    } else if e == 8 {
        100_000_000
    } else {
        1_000_000_000
    }
}

} // verus!
