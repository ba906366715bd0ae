//! Discrete price levels aligned to the book's tick size.
//!
//! A raw price is snapped to the tick grid on admission, so that equality
//! and ordering of levels are well defined for prices that differ only by
//! sub-tick noise.

use vstd::prelude::*;

use crate::errors::BookError;
use crate::num::{Num, AMOUNT_CAP};

verus! {

/// The level, in units, that the decimal backend yields when `price` is
/// rounded to the grid of `tick`: `(price / tick).round() * tick`, a
/// function of the two arguments alone.
pub uninterp spec fn snapped_units(price: int, tick: int) -> int;

/// Relies on rust_decimal's division, `round` (to the nearest integer,
/// ties to even) and multiplication. Within the capped range every step is
/// exact except the rounding itself, so: the result is determined by the
/// two arguments; it lies between zero and `price + tick`; and a price
/// that is already a whole multiple of the tick is returned unchanged.
#[verifier::external_body]
fn snap_units(price_units: i128, tick_units: i128) -> (r: i128)
    requires
        0 < price_units <= AMOUNT_CAP,
        0 < tick_units <= AMOUNT_CAP,
    ensures
        r == snapped_units(price_units as int, tick_units as int),
        0 <= r <= price_units + tick_units,
        price_units % tick_units == 0 ==> r == price_units,
{
    let price = rust_decimal::Decimal::from_i128_with_scale(price_units, 9);
    let tick = rust_decimal::Decimal::from_i128_with_scale(tick_units, 9);
    let mut level = (price / tick).round() * tick;
    level.rescale(9);
    level.mantissa()
}

/// A price level in the order book that orders can rest at.
///
/// The level is the raw price normalized to the tick grid; the tick size
/// is carried alongside for diagnostics. All ticks within one book share
/// the same tick size, so equality and ordering go by the level alone.
#[derive(Clone, Copy, PartialEq, Eq, Structural, Debug)]
pub struct Tick {
    level: Num,
    tick_size: Num,
}

impl Tick {
    /// The normalized level, in units.
    pub closed spec fn level_spec(self) -> int {
        self.level@
    }

    /// The tick size the level was normalized to, in units.
    pub closed spec fn tick_size_spec(self) -> int {
        self.tick_size@
    }

    /// Snaps `price` to the grid of `tick_size`. Rejects a non-positive
    /// price, then a non-positive tick size; otherwise the level is the
    /// snapped price.
    pub fn new(price: Num, tick_size: Num) -> (r: Result<Tick, BookError>)
        requires
            0 < price@ && 0 < tick_size@ ==> price@ <= AMOUNT_CAP as int
                && tick_size@ <= AMOUNT_CAP as int,
        ensures
            r is Ok <==> 0 < price@ && 0 < tick_size@,
            r matches Ok(t) ==> t.level_spec() == snapped_units(price@, tick_size@)
                && t.tick_size_spec() == tick_size@
                && 0 <= t.level_spec() <= price@ + tick_size@
                && (price@ % tick_size@ == 0 ==> t.level_spec() == price@),
            r matches Err(e) ==> e == (if price@ <= 0 {
                BookError::InvalidPrice
            } else {
                BookError::InvalidTickSize
            }),
    {
        if price.units() <= 0 {
            return Err(BookError::InvalidPrice);
        }
        if tick_size.units() <= 0 {
            return Err(BookError::InvalidTickSize);
        }
        let level_units = snap_units(price.units(), tick_size.units());
        Ok(Tick { level: Num::from_units(level_units), tick_size })
    }

    /// The normalized price level.
    pub fn level(&self) -> (l: Num)
        ensures
            l@ == self.level_spec(),
    {
        self.level
    }
}

} // verus!
