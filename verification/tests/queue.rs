use orderbook::concurrent_queue::OrderQueue;
use orderbook::order::{Order, Side};
use orderbook::order_book::OrderBook;

#[test]
fn spsc_queue_basic() {
    let q = OrderQueue::new(16);
    let producer = q.clone();
    let consumer = q.clone();
    for i in 0..8 {
        let order = Order::new(i, Side::Buy, 100, 1);
        assert!(producer.push(order).is_ok());
    }

    for i in 0..8 {
        let o = consumer.pop().expect("Order should be available");
        assert_eq!(o.order_id, i);
    }
    assert!(consumer.pop().is_none());
}

#[test]
fn mpsc_queue_concurrent() {
    let producers = 4;
    let orders_per = 1000;
    // Use capacity equal to total orders to avoid blocking
    let q = OrderQueue::new(producers * orders_per);
    for t in 0..producers {
        let producer = q.clone();
        for i in 0..orders_per {
            let id = (t * orders_per + i) as u64;
            let order = Order::new(id, Side::Sell, 100, 1);
            while producer.push(order.clone()).is_err() {}
        }
    }
    // Drain
    let mut count = 0;
    while let Some(_o) = q.pop() {
        count += 1;
    }
    assert_eq!(count, 4 * 1000);
}

#[test]
fn order_book_concurrent_processing() {
    let producers = 4;
    let orders_per = 1000;
    let queue = OrderQueue::new(producers * orders_per);
    for t in 0..producers {
        let q = queue.clone();
        for i in 0..orders_per {
            let order = Order::new((t * orders_per + i) as u64, Side::Buy, 100, 1);
            while q.push(order.clone()).is_err() {}
        }
    }
    let mut book = OrderBook::new();
    let mut count = 0;
    while let Some(order) = queue.pop() {
        book.add_order(order);
        count += 1;
    }
    assert_eq!(count, producers * orders_per);
}

#[test]
fn queue_capacity_boundary() {
    let q = OrderQueue::new(3);
    for i in 0..3 {
        assert!(q.push(Order::new(i, Side::Buy, 50, 2)).is_ok());
    }
    let overflow = Order::new(99, Side::Sell, 51, 7);
    match q.push(overflow) {
        Ok(()) => panic!("a fourth push into a queue of capacity 3 must fail"),
        Err(back) => assert_eq!(back, overflow),
    }
    let popped = q.pop().expect("the queue holds three orders");
    assert_eq!(popped.order_id, 0);
    assert!(q.push(overflow).is_ok());
}

#[test]
fn pop_returns_pushed_order_intact() {
    let q = OrderQueue::new(2);
    let order = Order::new(41, Side::Sell, 12345, 67);
    assert!(q.push(order).is_ok());
    let back = q.pop().expect("the order just pushed is available");
    assert_eq!(back, order);
    assert!(q.pop().is_none());
}
