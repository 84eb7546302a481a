use orderbook::concurrent_queue::OrderQueue;
use orderbook::order::{Order, Side};
use orderbook::order_book::OrderBook;
use orderbook::pipeline::drain_into_book;
use orderbook::trade::Trade;

fn ids_at(book: &OrderBook, side: Side, price: u64) -> Vec<u64> {
    book.orders_at(side, price).iter().map(|o| o.order_id).collect()
}

#[test]
fn order_new_sets_fields_and_no_timestamp() {
    let o = Order::new(9, Side::Sell, 777, 13);
    assert_eq!(o.order_id, 9);
    assert_eq!(o.side, Side::Sell);
    assert_eq!(o.price, 777);
    assert_eq!(o.quantity, 13);
    assert_eq!(o.timestamp, 0);
}

#[test]
fn trade_new_sets_fields_and_no_timestamp() {
    let t = Trade::new(3, 4, 25, 999);
    assert_eq!(t.taker_order_id, 3);
    assert_eq!(t.maker_order_id, 4);
    assert_eq!(t.quantity, 25);
    assert_eq!(t.price, 999);
    assert_eq!(t.timestamp, 0);
}

#[test]
fn scenario_add_cancel_modify() {
    let mut book = OrderBook::new();
    book.add_order(Order::new(1, Side::Buy, 100, 10));
    book.add_order(Order::new(2, Side::Buy, 100, 5));
    assert_eq!(book.level_total(Side::Buy, 100), Some(15));
    assert_eq!(ids_at(&book, Side::Buy, 100), vec![1, 2]);

    assert!(book.cancel_order(1, Side::Buy, 100));
    assert_eq!(book.level_total(Side::Buy, 100), Some(5));
    assert_eq!(ids_at(&book, Side::Buy, 100), vec![2]);

    assert!(book.modify_order(2, Side::Buy, 100, 20));
    assert_eq!(book.level_total(Side::Buy, 100), Some(20));
    let orders = book.orders_at(Side::Buy, 100);
    assert_eq!(orders.len(), 1);
    assert_eq!(orders[0].order_id, 2);
    assert_eq!(orders[0].quantity, 20);
}

#[test]
fn cancel_missing_leaves_book_unchanged() {
    let mut book = OrderBook::new();
    book.add_order(Order::new(1, Side::Buy, 100, 10));
    book.add_order(Order::new(2, Side::Sell, 105, 4));
    let bids_before = book.orders_at(Side::Buy, 100);
    let asks_before = book.orders_at(Side::Sell, 105);

    // Unknown id at an existing level.
    assert!(!book.cancel_order(77, Side::Buy, 100));
    // Known id, but the wrong price.
    assert!(!book.cancel_order(1, Side::Buy, 101));
    // Known id, but the wrong side.
    assert!(!book.cancel_order(1, Side::Sell, 100));

    assert_eq!(book.orders_at(Side::Buy, 100), bids_before);
    assert_eq!(book.orders_at(Side::Sell, 105), asks_before);
    assert_eq!(book.level_total(Side::Buy, 100), Some(10));
    assert_eq!(book.level_total(Side::Sell, 105), Some(4));
}

#[test]
fn modify_missing_returns_false() {
    let mut book = OrderBook::new();
    book.add_order(Order::new(5, Side::Sell, 300, 6));
    assert!(!book.modify_order(6, Side::Sell, 300, 9));
    assert!(!book.modify_order(5, Side::Buy, 300, 9));
    assert!(!book.modify_order(5, Side::Sell, 301, 9));
    assert_eq!(book.level_total(Side::Sell, 300), Some(6));
    let orders = book.orders_at(Side::Sell, 300);
    assert_eq!(orders[0].quantity, 6);
}

#[test]
fn add_cancel_round_trip_restores_book() {
    let mut book = OrderBook::new();
    book.add_order(Order::new(7, Side::Sell, 250, 4));
    assert!(book.cancel_order(7, Side::Sell, 250));
    // The level was created by the add, so the cancel removes it again.
    assert_eq!(book.level_total(Side::Sell, 250), None);
    assert!(book.orders_at(Side::Sell, 250).is_empty());
    assert!(book.top_asks(10).is_empty());

    // Round trip on a level that existed before: the earlier order stays.
    book.add_order(Order::new(8, Side::Buy, 90, 3));
    book.add_order(Order::new(9, Side::Buy, 90, 5));
    assert!(book.cancel_order(9, Side::Buy, 90));
    assert_eq!(book.level_total(Side::Buy, 90), Some(3));
    assert_eq!(ids_at(&book, Side::Buy, 90), vec![8]);
}

#[test]
fn modify_keeps_arrival_order() {
    let mut book = OrderBook::new();
    book.add_order(Order::new(1, Side::Buy, 80, 2));
    book.add_order(Order::new(2, Side::Buy, 80, 3));
    book.add_order(Order::new(3, Side::Buy, 80, 4));
    assert!(book.modify_order(2, Side::Buy, 80, 30));
    assert!(book.modify_order(1, Side::Buy, 80, 10));
    assert_eq!(ids_at(&book, Side::Buy, 80), vec![1, 2, 3]);
    assert_eq!(book.level_total(Side::Buy, 80), Some(44));
}

#[test]
fn top_of_book_traversal_order() {
    let mut book = OrderBook::new();
    book.add_order(Order::new(1, Side::Buy, 100, 10));
    book.add_order(Order::new(2, Side::Buy, 105, 20));
    book.add_order(Order::new(3, Side::Buy, 95, 30));
    book.add_order(Order::new(4, Side::Buy, 105, 5));
    book.add_order(Order::new(5, Side::Sell, 110, 7));
    book.add_order(Order::new(6, Side::Sell, 108, 8));
    book.add_order(Order::new(7, Side::Sell, 120, 9));

    let bids = book.top_bids(2);
    assert_eq!(bids.len(), 2);
    assert_eq!((bids[0].price, bids[0].total_quantity, bids[0].order_count), (105, 25, 2));
    assert_eq!((bids[1].price, bids[1].total_quantity, bids[1].order_count), (100, 10, 1));

    let asks = book.top_asks(2);
    assert_eq!(asks.len(), 2);
    assert_eq!((asks[0].price, asks[0].total_quantity, asks[0].order_count), (108, 8, 1));
    assert_eq!((asks[1].price, asks[1].total_quantity, asks[1].order_count), (110, 7, 1));

    // Asking for more depth than there are levels returns them all.
    assert_eq!(book.top_bids(10).len(), 3);
    assert_eq!(book.top_asks(10).len(), 3);
}

#[test]
fn timestamps_non_decreasing_in_arrival_order() {
    let mut book = OrderBook::new();
    for i in 0..6 {
        book.add_order(Order::new(i, Side::Sell, 400, 1));
    }
    let orders = book.orders_at(Side::Sell, 400);
    assert_eq!(orders.len(), 6);
    for w in orders.windows(2) {
        assert!(w[0].timestamp <= w[1].timestamp);
    }
}

#[test]
fn try_add_rejects_zero_quantity() {
    let mut book = OrderBook::new();
    assert!(!book.try_add_order(Order::new(1, Side::Buy, 60, 0)));
    assert_eq!(book.level_total(Side::Buy, 60), None);
    assert!(book.try_add_order(Order::new(1, Side::Buy, 60, 2)));
    assert_eq!(book.level_total(Side::Buy, 60), Some(2));
}

#[test]
fn try_add_rejects_aggregate_overflow() {
    let mut book = OrderBook::new();
    assert!(book.try_add_order(Order::new(1, Side::Buy, 70, u64::MAX - 1)));
    assert!(!book.try_add_order(Order::new(2, Side::Buy, 70, 2)));
    assert_eq!(ids_at(&book, Side::Buy, 70), vec![1]);
    // A single further unit still fits exactly.
    assert!(book.try_add_order(Order::new(3, Side::Buy, 70, 1)));
    assert_eq!(book.level_total(Side::Buy, 70), Some(u64::MAX));
}

#[test]
fn drain_pipeline_counts_every_order() {
    let producers = 4;
    let orders_per = 100;
    let queue = OrderQueue::new(producers * orders_per);
    for t in 0..producers {
        let handle = queue.clone();
        for i in 0..orders_per {
            let id = (t * orders_per + i) as u64;
            let order = Order::new(id, Side::Buy, 100 + (id % 7), 1 + id % 5);
            assert!(handle.push(order).is_ok());
        }
    }
    let mut book = OrderBook::new();
    let (popped, added) = drain_into_book(&queue, &mut book);
    assert_eq!(popped, producers * orders_per);
    assert_eq!(added, producers * orders_per);
    assert!(queue.pop().is_none());

    let mut resting = 0;
    for level in book.top_bids(100) {
        resting += level.order_count;
    }
    assert_eq!(resting, producers * orders_per);
}
