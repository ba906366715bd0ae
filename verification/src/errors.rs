//! Typed errors returned by the order book and its value types.

use vstd::prelude::*;

verus! {

/// Every way an order-book operation can be refused. Each operation's
/// contract states exactly which variant is returned on which inputs.
#[derive(Clone, Copy, PartialEq, Eq, Structural, Debug)]
pub enum BookError {
    /// A book or tick was requested with a non-positive tick size.
    InvalidTickSize,
    /// A non-positive price was supplied.
    InvalidPrice,
    /// A non-positive quantity was supplied.
    InvalidQuantity,
    /// A market order asked for more volume than the opposite side holds.
    InsufficientLiquidity,
    /// A cancellation named an id that is not resting in the book.
    NotFound,
}

} // verus!
