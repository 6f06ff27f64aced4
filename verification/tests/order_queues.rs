use orderbook::engine::order_queues::{OrderQueue, OrderSide};
use std::time::{SystemTime, UNIX_EPOCH};

#[derive(Debug, Eq, PartialEq)]
struct TestOrder {
    pub name: &'static str,
}

/// Wall clock in nanoseconds that never hands out the same reading twice.
struct Clock {
    last: u64,
}

impl Clock {
    fn new() -> Self {
        Clock { last: 0 }
    }

    fn now(&mut self) -> u64 {
        let nanos = SystemTime::now().duration_since(UNIX_EPOCH).unwrap().as_nanos() as u64;
        self.last = if nanos > self.last { nanos } else { self.last + 1 };
        self.last
    }
}

/// Price in hundredths.
fn ticks(price: f64) -> u64 {
    (price * 100.0).round() as u64
}

fn get_queue_empty(side: OrderSide) -> OrderQueue<TestOrder> {
    OrderQueue::new(side, 5, 10)
}

fn get_queue_bids(clock: &mut Clock) -> OrderQueue<TestOrder> {
    let mut bid_queue = get_queue_empty(OrderSide::Bid);

    assert!(bid_queue.insert(1, ticks(1.01), clock.now(), TestOrder { name: "low bid" }));
    assert!(bid_queue.insert(2, ticks(1.02), clock.now(), TestOrder { name: "high bid first" }));
    // same price but later
    assert!(bid_queue.insert(3, ticks(1.02), clock.now(), TestOrder { name: "high bid second" }));
    assert_eq!(bid_queue.peek().unwrap().name, "high bid first");

    bid_queue
}

fn get_queue_asks(clock: &mut Clock) -> OrderQueue<TestOrder> {
    let mut ask_queue = get_queue_empty(OrderSide::Ask);
    assert!(ask_queue.insert(1, ticks(1.01), clock.now(), TestOrder { name: "low ask first" }));
    assert!(ask_queue.insert(2, ticks(1.02), clock.now(), TestOrder { name: "high ask" }));
    assert!(ask_queue.insert(3, ticks(1.01), clock.now(), TestOrder { name: "low ask second" }));
    assert_eq!(ask_queue.peek().unwrap().name, "low ask first");

    ask_queue
}

#[test]
fn queue_operations_insert_unique() {
    let mut clock = Clock::new();
    let mut bid_queue = get_queue_empty(OrderSide::Bid);
    assert_eq!(bid_queue.peek(), None);

    // insert unique
    assert!(bid_queue.insert(1, ticks(1.01), clock.now(), TestOrder { name: "first bid" }));

    // discard
    assert!(!bid_queue.insert(1, ticks(1.02), clock.now(), TestOrder { name: "first bid" }));
}

#[test]
fn queue_operations_ordering_bid() {
    let mut clock = Clock::new();
    let mut bid_queue = get_queue_bids(&mut clock);

    assert_eq!(bid_queue.pop().unwrap().name, "high bid first");
    assert_eq!(bid_queue.pop().unwrap().name, "high bid second");
    assert_eq!(bid_queue.pop().unwrap().name, "low bid");
}

#[test]
fn queue_operations_ordering_ask() {
    let mut clock = Clock::new();
    let mut ask_queue = get_queue_asks(&mut clock);

    assert_eq!(ask_queue.pop().unwrap().name, "low ask first");
    assert_eq!(ask_queue.pop().unwrap().name, "low ask second");
    assert_eq!(ask_queue.pop().unwrap().name, "high ask");
}

#[test]
fn queue_operations_modify_order() {
    let mut clock = Clock::new();
    let mut bid_queue = get_queue_bids(&mut clock);

    assert!(bid_queue.modify_current_order(TestOrder { name: "current bid partially matched" }));

    assert_eq!(bid_queue.pop().unwrap().name, "current bid partially matched");
    assert_eq!(bid_queue.pop().unwrap().name, "high bid second");
    assert_eq!(bid_queue.pop().unwrap().name, "low bid");
}

#[test]
fn queue_operations_amend() {
    let mut clock = Clock::new();
    let mut ask_queue = get_queue_asks(&mut clock);

    // amend two orders in the queue
    assert!(ask_queue.amend(2, ticks(0.99), clock.now(), TestOrder { name: "new first" }));
    assert!(ask_queue.amend(1, ticks(1.01), clock.now(), TestOrder { name: "new last" }));
    // non-exist order
    assert!(!ask_queue.amend(4, ticks(3.03), clock.now(), TestOrder { name: "nonexistent" }));

    assert_eq!(ask_queue.pop().unwrap().name, "new first");
    assert_eq!(ask_queue.pop().unwrap().name, "low ask second");
    assert_eq!(ask_queue.pop().unwrap().name, "new last");
}

#[test]
fn queue_operations_cancel_order1() {
    let mut clock = Clock::new();
    let mut bid_queue = get_queue_bids(&mut clock);

    bid_queue.cancel(2);

    assert_eq!(bid_queue.pop().unwrap().name, "high bid second");
    assert_eq!(bid_queue.pop().unwrap().name, "low bid");
}

#[test]
fn queue_operations_cancel_order2() {
    let mut clock = Clock::new();
    let mut ask_queue = get_queue_asks(&mut clock);

    ask_queue.cancel(3);

    assert_eq!(ask_queue.pop().unwrap().name, "low ask first");
    assert_eq!(ask_queue.pop().unwrap().name, "high ask");
}

#[test]
fn queue_pop_on_empty_is_none() {
    let mut queue = get_queue_empty(OrderSide::Ask);
    assert_eq!(queue.pop(), None);
    assert_eq!(queue.peek(), None);
    assert!(!queue.cancel(7));
    assert!(!queue.modify_current_order(TestOrder { name: "nobody" }));
}

#[test]
fn queue_equal_price_and_time_goes_by_id() {
    let mut queue = get_queue_empty(OrderSide::Bid);
    assert!(queue.insert(9, 100, 5, TestOrder { name: "nine" }));
    assert!(queue.insert(4, 100, 5, TestOrder { name: "four" }));
    assert!(queue.insert(6, 100, 5, TestOrder { name: "six" }));
    assert_eq!(queue.pop().unwrap().name, "four");
    assert_eq!(queue.pop().unwrap().name, "six");
    assert_eq!(queue.pop().unwrap().name, "nine");
    assert_eq!(queue.pop(), None);
}

#[test]
fn queue_insert_then_cancel_leaves_no_trace() {
    let mut clock = Clock::new();
    let mut touched = get_queue_bids(&mut clock);
    assert!(touched.insert(8, ticks(1.05), clock.now(), TestOrder { name: "passing by" }));
    assert!(touched.contains(8));
    assert!(touched.cancel(8));
    assert!(!touched.contains(8));

    assert_eq!(touched.peek().unwrap().name, "high bid first");
    assert_eq!(touched.pop().unwrap().name, "high bid first");
    assert_eq!(touched.pop().unwrap().name, "high bid second");
    assert_eq!(touched.pop().unwrap().name, "low bid");
    assert_eq!(touched.pop(), None);
}

#[test]
fn queue_second_cancel_finds_nothing() {
    let mut clock = Clock::new();
    let mut queue = get_queue_asks(&mut clock);
    assert!(queue.cancel(1));
    assert!(!queue.cancel(1));
    assert_eq!(queue.pop().unwrap().name, "low ask second");
    assert_eq!(queue.pop().unwrap().name, "high ask");
    assert_eq!(queue.pop(), None);
}

#[test]
fn queue_modify_refused_while_top_entry_is_stale() {
    let mut clock = Clock::new();
    let mut queue = get_queue_bids(&mut clock);
    // the entry of order 2 stays at the top of the heap after the cancel
    assert!(queue.cancel(2));
    assert!(!queue.modify_current_order(TestOrder { name: "too early" }));
    // a look at the queue drops the stale entry
    assert_eq!(queue.peek().unwrap().name, "high bid second");
    assert!(queue.modify_current_order(TestOrder { name: "in time" }));
    assert_eq!(queue.pop().unwrap().name, "in time");
    assert_eq!(queue.pop().unwrap().name, "low bid");
}

#[test]
fn queue_survives_cleaning() {
    // threshold 2: the fourth cancel rebuilds the heap without stale entries
    let mut queue: OrderQueue<u64> = OrderQueue::new(OrderSide::Ask, 2, 4);
    for id in 1..=20u64 {
        assert!(queue.insert(id, 1000 - id, id, id));
    }
    for id in 11..=20u64 {
        assert!(queue.cancel(id));
    }
    for id in (1..=10u64).rev() {
        assert_eq!(queue.pop(), Some(id));
    }
    assert_eq!(queue.pop(), None);
}

#[test]
fn queue_pops_in_price_time_order() {
    let mut bids: OrderQueue<(u64, u64)> = OrderQueue::new(OrderSide::Bid, 10, 0);
    let mut asks: OrderQueue<(u64, u64)> = OrderQueue::new(OrderSide::Ask, 10, 0);
    let mut state: u64 = 12345;
    for id in 1..=200u64 {
        state = state.wrapping_mul(6364136223846793005).wrapping_add(1442695040888963407);
        let price = (state >> 33) % 17 + 1;
        assert!(bids.insert(id, price, id, (price, id)));
        assert!(asks.insert(id, price, id, (price, id)));
    }
    let mut last: Option<(u64, u64)> = None;
    let mut seen = 0;
    while let Some((price, ts)) = bids.pop() {
        if let Some((p, t)) = last {
            assert!(price < p || (price == p && ts > t));
        }
        last = Some((price, ts));
        seen += 1;
    }
    assert_eq!(seen, 200);
    last = None;
    seen = 0;
    while let Some((price, ts)) = asks.pop() {
        if let Some((p, t)) = last {
            assert!(price > p || (price == p && ts > t));
        }
        last = Some((price, ts));
        seen += 1;
    }
    assert_eq!(seen, 200);
}
