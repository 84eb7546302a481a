//! The order record: one unit of trading interest.

use vstd::prelude::*;

verus! {

/// The direction of trading interest.
#[derive(Debug, Clone, Copy, PartialEq, Eq, Structural)]
pub enum Side {
    Buy,
    Sell,
}

/// The side opposite to `side`.
pub open spec fn other_side(side: Side) -> Side {
    match side {
        Side::Buy => Side::Sell,
        Side::Sell => Side::Buy,
    }
}

/// One unit of trading interest. Prices are in the smallest price unit, so
/// that no floating-point comparison is ever needed. The timestamp is 0 until
/// the book assigns one at insertion.
#[derive(Debug, Clone, Copy, PartialEq, Eq, Structural)]
pub struct Order {
    pub order_id: u64,
    pub side: Side,
    pub price: u64,
    pub quantity: u64,
    pub timestamp: u64,
}

/// `order` with its timestamp replaced by `ts`, as the book stamps it at
/// insertion.
pub open spec fn with_timestamp(order: Order, ts: u64) -> Order {
    Order { timestamp: ts, ..order }
}

impl Order {
    /// A fresh order with no timestamp yet; the book assigns one on insertion.
    pub fn new(order_id: u64, side: Side, price: u64, quantity: u64) -> (order: Order)
        ensures
            order == (Order { order_id, side, price, quantity, timestamp: 0 }),
    {
        Order { order_id, side, price, quantity, timestamp: 0 }
    }
}

} // verus!
