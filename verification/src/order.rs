//! Orders and execution reports.

use vstd::prelude::*;

use crate::book_model::{FillRec, OrderRec};
use crate::errors::BookError;
use crate::num::Num;

verus! {

/// Unique identifier for orders: a counter that the book increments for
/// every accepted order, so ids never repeat within one book.
pub type OrderId = u64;

/// How an order is processed: resting at a limit, or consuming immediately.
#[derive(Copy, Clone, PartialEq, Eq, Structural, Debug)]
pub enum OrderType {
    Limit,
    Market,
}

/// Whether an order buys or sells.
#[derive(Copy, Clone, PartialEq, Eq, Structural, Debug)]
pub enum OrderSide {
    Buy,
    Sell,
}

/// A resting order. `quantity` is the remaining size: partial fills shrink
/// it, and the order is removed once it reaches zero. The other fields are
/// immutable after creation.
#[derive(Debug)]
pub struct Order {
    pub id: OrderId,
    pub quantity: Num,
    pub order_type: OrderType,
    pub order_side: OrderSide,
}

impl View for Order {
    type V = OrderRec;

    open spec fn view(&self) -> OrderRec {
        OrderRec { id: self.id, qty: self.quantity@ }
    }
}

impl Order {
    /// Builds an order, rejecting a non-positive quantity.
    pub fn new(id: OrderId, quantity: Num, order_type: OrderType, order_side: OrderSide) -> (r:
        Result<Order, BookError>)
        ensures
            r is Ok <==> quantity@ > 0,
            r matches Ok(o) ==> o.id == id && o.quantity == quantity && o.order_type == order_type
                && o.order_side == order_side,
            r matches Err(e) ==> e == BookError::InvalidQuantity,
    {
        if quantity.units() <= 0 {
            return Err(BookError::InvalidQuantity);
        }
        Ok(Order { id, quantity, order_type, order_side })
    }
}

/// A match between two orders: the taker is the incoming aggressor, the
/// maker the resting order it consumed, and `price` is the maker's level.
#[derive(Debug)]
pub struct Fill {
    pub quantity: Num,
    pub price: Num,
    pub taker_order_id: OrderId,
    pub maker_order_id: OrderId,
}

impl View for Fill {
    type V = FillRec;

    open spec fn view(&self) -> FillRec {
        FillRec {
            qty: self.quantity@,
            price: self.price@,
            taker: self.taker_order_id,
            maker: self.maker_order_id,
        }
    }
}

/// A sequence of fills as the model sees it.
pub open spec fn fills_view(fills: Seq<Fill>) -> Seq<FillRec> {
    fills.map_values(|f: Fill| f@)
}

} // verus!
