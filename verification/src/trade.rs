//! The trade record: a fill between a taker and a maker order.

use vstd::prelude::*;

verus! {

/// A trade between an incoming (taker) order and a resting (maker) order.
#[derive(Debug, Clone, Copy, PartialEq, Eq, Structural)]
pub struct Trade {
    pub taker_order_id: u64,
    pub maker_order_id: u64,
    pub quantity: u64,
    pub price: u64,
    pub timestamp: u64,
}

impl Trade {
    /// A fresh trade record with no timestamp yet.
    pub fn new(taker_order_id: u64, maker_order_id: u64, quantity: u64, price: u64) -> (trade:
        Trade)
        ensures
            trade == (Trade { taker_order_id, maker_order_id, quantity, price, timestamp: 0 }),
    {
        Trade { taker_order_id, maker_order_id, quantity, price, timestamp: 0 }
    }
}

} // verus!
