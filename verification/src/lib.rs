//! An in-memory central limit order book with price-time priority matching.
//!
//! The book keeps two sides of resting limit orders, matches crossing
//! orders against them in price-then-time order, and maintains aggregate
//! volume counters and an order-location index whose consistency is
//! verified.

pub mod book_lemmas;
pub mod book_model;
pub mod errors;
pub mod laws;
pub mod num;
pub mod order;
pub mod order_book;
pub mod ticks;

pub use errors::BookError;
pub use num::Num;
pub use order::{Fill, Order, OrderId, OrderSide, OrderType};
pub use order_book::OrderBook;
pub use ticks::Tick;
