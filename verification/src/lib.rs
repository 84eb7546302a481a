//! A price-ordered order book with a bounded concurrent ingestion queue.
//!
//! Producers push orders into a fixed-capacity [`concurrent_queue::OrderQueue`];
//! a single consumer drains the queue and applies each order to an
//! [`order_book::OrderBook`], which keeps one FIFO price level per (side, price)
//! and maintains the aggregate quantity of every level.

pub mod concurrent_queue;
pub mod order;
pub mod order_book;
pub mod pipeline;
pub mod trade;
