use orderbook::{orders, Failed, OrderSide, OrderType, Orderbook, Success, ValidationError};
use std::time::{SystemTime, UNIX_EPOCH};

const FLOAT_THRESHOLD: f64 = 1e-6;

/// Ticks and lots per unit.
const SCALE: f64 = 1_000_000.0;

fn match_float(expected: f64, get: f64) -> bool {
    if (expected - get).abs() < FLOAT_THRESHOLD {
        true
    } else {
        false
    }
}

/// A price or a quantity as the book counts it.
fn fixed(value: f64) -> u64 {
    (value * SCALE).round() as u64
}

/// A price or a quantity of the book as a number of units.
fn float(value: u64) -> f64 {
    value as f64 / SCALE
}

/// Wall clock in nanoseconds that never hands out the same reading twice.
struct Clock {
    last: u64,
}

impl Clock {
    fn new() -> Self {
        Clock { last: 0 }
    }

    fn now(&mut self) -> u64 {
        let nanos = SystemTime::now().duration_since(UNIX_EPOCH).unwrap().as_nanos() as u64;
        self.last = if nanos > self.last { nanos } else { self.last + 1 };
        self.last
    }
}

#[derive(PartialEq, Eq, Debug, Copy, Clone)]
enum Asset {
    USD,
    EUR,
    BTC,
    ETH,
    OTN,
}

fn parse_asset(asset: &str) -> Option<Asset> {
    match asset {
        "USD" => Some(Asset::USD),
        "EUR" => Some(Asset::EUR),
        "BTC" => Some(Asset::BTC),
        "ETH" => Some(Asset::ETH),
        "OTN" => Some(Asset::OTN),
        _ => None,
    }
}

#[test]
fn cancel_nonexisting() {
    let mut clock = Clock::new();
    let mut orderbook = Orderbook::new(Asset::BTC, Asset::USD);
    let request = orders::limit_order_cancel_request(1, OrderSide::Bid);
    let mut result = orderbook.process_order(request);

    assert_eq!(result.len(), 1);
    match result.pop().unwrap() {
        Err(_) => (),
        _ => panic!("unexpected events"),
    }
}

#[test]
fn market_order_on_empty_orderbook() {
    let mut clock = Clock::new();
    let mut orderbook = Orderbook::new(Asset::BTC, Asset::USD);
    let order_asset = parse_asset("BTC").unwrap();
    let price_asset = parse_asset("USD").unwrap();

    let order1 = orders::new_market_order_request(
        order_asset,
        price_asset,
        OrderSide::Bid,
        fixed(2.0),
        clock.now(),
    );

    // process market order
    let res = orderbook.process_order(order1);

    if !match res[0] {
        Ok(Success::Accepted { id: 1, .. }) => true,
        _ => false,
    } || !match res[1] {
        Err(Failed::NoMatch(1)) => true,
        _ => false,
    } {
        panic!("unexpected event sequence: {:?}", res)
    }
}

#[test]
fn market_order_partial_match() {
    let mut clock = Clock::new();
    let mut orderbook = Orderbook::new(Asset::BTC, Asset::USD);
    let order_asset = parse_asset("BTC").unwrap();
    let price_asset = parse_asset("USD").unwrap();

    let order1 = orders::new_limit_order_request(
        order_asset,
        price_asset,
        OrderSide::Bid,
        fixed(10.0),
        fixed(1.0),
        clock.now(),
    );

    let order2 = orders::new_market_order_request(
        order_asset,
        price_asset,
        OrderSide::Ask,
        fixed(0.5),
        clock.now(),
    );

    orderbook.process_order(order1);
    let res = orderbook.process_order(order2);

    if !match res[0] {
        Ok(Success::Accepted { id: 2, .. }) => true,
        _ => false,
    } || !match res[1] {
        Ok(Success::Filled { order_id: 2, price, qty, .. })
            if match_float(float(price), 10.0) && match_float(float(qty), 0.5) =>
        {
            true
        }
        _ => false,
    } || !match res[2] {
        Ok(Success::PartiallyFilled { order_id: 1, price, qty, .. })
            if match_float(float(price), 10.0) && match_float(float(qty), 0.5) =>
        {
            true
        }
        _ => false,
    } {
        panic!("unexpected event sequence: {:?}", res)
    }
}

#[test]
fn market_order_two_orders_match() {
    let mut clock = Clock::new();
    let mut orderbook = Orderbook::new(Asset::BTC, Asset::USD);
    let order_asset = parse_asset("BTC").unwrap();
    let price_asset = parse_asset("USD").unwrap();

    let order1 = orders::new_limit_order_request(
        order_asset,
        price_asset,
        OrderSide::Bid,
        fixed(10.0),
        fixed(1.0),
        clock.now(),
    );

    let order2 = orders::new_limit_order_request(
        order_asset,
        price_asset,
        OrderSide::Bid,
        fixed(12.0),
        fixed(1.0),
        clock.now(),
    );

    let order3 = orders::new_market_order_request(
        order_asset,
        price_asset,
        OrderSide::Ask,
        fixed(1.5),
        clock.now(),
    );

    orderbook.process_order(order1);
    orderbook.process_order(order2);
    let res = orderbook.process_order(order3);

    if !match res[0] {
        Ok(Success::Accepted { id: 3, .. }) => true,
        _ => false,
    } || !match res[1] {
        Ok(Success::PartiallyFilled { order_id: 3, price, qty, .. })
            if match_float(float(price), 12.0) && match_float(float(qty), 1.0) =>
        {
            true
        }
        _ => false,
    } || !match res[2] {
        Ok(Success::Filled { order_id: 2, price, qty, .. })
            if match_float(float(price), 12.0) && match_float(float(qty), 1.0) =>
        {
            true
        }
        _ => false,
    } || !match res[3] {
        Ok(Success::Filled { order_id: 3, price, qty, .. })
            if match_float(float(price), 10.0) && match_float(float(qty), 0.5) =>
        {
            true
        }
        _ => false,
    } || !match res[4] {
        Ok(Success::PartiallyFilled { order_id: 1, price, qty, .. })
            if match_float(float(price), 10.0) && match_float(float(qty), 0.5) =>
        {
            true
        }
        _ => false,
    } {
        panic!("unexpected event sequence: {:?}", res)
    }
}

#[test]
fn limit_order_on_empty_orderbook() {
    let mut clock = Clock::new();
    let mut orderbook = Orderbook::new(Asset::BTC, Asset::USD);
    let order_asset = parse_asset("BTC").unwrap();
    let price_asset = parse_asset("USD").unwrap();

    let order1 = orders::new_limit_order_request(
        order_asset,
        price_asset,
        OrderSide::Bid,
        fixed(10.0),
        fixed(2.0),
        clock.now(),
    );

    // process order
    let res = orderbook.process_order(order1);

    if !match res[0] {
        Ok(Success::Accepted { id: 1, .. }) => true,
        _ => false,
    } {
        panic!("unexpected event sequence: {:?}", res)
    }
}

#[test]
fn limit_order_partial_match() {
    let mut clock = Clock::new();
    let mut orderbook = Orderbook::new(Asset::BTC, Asset::USD);
    let order_asset = parse_asset("BTC").unwrap();
    let price_asset = parse_asset("USD").unwrap();

    let order1 = orders::new_limit_order_request(
        order_asset,
        price_asset,
        OrderSide::Bid,
        fixed(10.0),
        fixed(1.0),
        clock.now(),
    );

    let order2 = orders::new_limit_order_request(
        order_asset,
        price_asset,
        OrderSide::Ask,
        fixed(9.0),
        fixed(0.5),
        clock.now(),
    );

    orderbook.process_order(order1);
    let res = orderbook.process_order(order2);

    if !match res[0] {
        Ok(Success::Accepted { id: 2, .. }) => true,
        _ => false,
    } || !match res[1] {
        Ok(Success::Filled { order_id: 2, price, qty, .. })
            if match_float(float(price), 10.0) && match_float(float(qty), 0.5) =>
        {
            true
        }
        _ => false,
    } || !match res[2] {
        Ok(Success::PartiallyFilled { order_id: 1, price, qty, .. })
            if match_float(float(price), 10.0) && match_float(float(qty), 0.5) =>
        {
            true
        }
        _ => false,
    } {
        panic!("unexpected event sequence: {:?}", res)
    }
}

#[test]
fn limit_order_exact_match() {
    let mut clock = Clock::new();
    let mut orderbook = Orderbook::new(Asset::BTC, Asset::USD);
    let order_asset = parse_asset("BTC").unwrap();
    let price_asset = parse_asset("USD").unwrap();

    let order1 = orders::new_limit_order_request(
        order_asset,
        price_asset,
        OrderSide::Bid,
        fixed(10.0),
        fixed(1.0),
        clock.now(),
    );

    let order2 = orders::new_limit_order_request(
        order_asset,
        price_asset,
        OrderSide::Ask,
        fixed(9.0),
        fixed(0.5),
        clock.now(),
    );

    orderbook.process_order(order1);
    let res = orderbook.process_order(order2);

    if !match res[0] {
        Ok(Success::Accepted { id: 2, .. }) => true,
        _ => false,
    } || !match res[1] {
        Ok(Success::Filled { order_id: 2, price, qty, .. })
            if match_float(float(price), 10.0) && match_float(float(qty), 0.5) =>
        {
            true
        }
        _ => false,
    } || !match res[2] {
        Ok(Success::PartiallyFilled { order_id: 1, price, qty, .. })
            if match_float(float(price), 10.0) && match_float(float(qty), 0.5) =>
        {
            true
        }
        _ => false,
    } {
        panic!("unexpected event sequence: {:?}", res)
    }

    let order3 = orders::new_limit_order_request(
        order_asset,
        price_asset,
        OrderSide::Ask,
        fixed(8.0),
        fixed(0.5),
        clock.now(),
    );

    let res2 = orderbook.process_order(order3);

    if !match res2[0] {
        Ok(Success::Accepted { id: 3, .. }) => true,
        _ => false,
    } || !match res2[1] {
        Ok(Success::Filled { order_id: 3, price, qty, .. })
            if match_float(float(price), 10.0) && match_float(float(qty), 0.5) =>
        {
            true
        }
        _ => false,
    } || !match res2[2] {
        Ok(Success::Filled { order_id: 1, price, qty, .. })
            if match_float(float(price), 10.0) && match_float(float(qty), 0.5) =>
        {
            true
        }
        _ => false,
    } {
        panic!("unexpected event sequence: {:?}", res2)
    }

    assert_eq!(orderbook.current_spread(), None);
}

#[test]
fn current_spread() {
    let mut clock = Clock::new();
    let mut orderbook = Orderbook::new(Asset::BTC, Asset::USD);
    let order_asset = parse_asset("BTC").unwrap();
    let price_asset = parse_asset("USD").unwrap();

    let order1 = orders::new_limit_order_request(
        order_asset,
        price_asset,
        OrderSide::Bid,
        fixed(10.0),
        fixed(1.0),
        clock.now(),
    );

    // not enough orders to calculate
    assert_eq!(orderbook.current_spread(), None);

    let order2 = orders::new_limit_order_request(
        order_asset,
        price_asset,
        OrderSide::Ask,
        fixed(12.0),
        fixed(0.5),
        clock.now(),
    );

    let order3 = orders::new_limit_order_request(
        order_asset,
        price_asset,
        OrderSide::Ask,
        fixed(12.5),
        fixed(2.5),
        clock.now(),
    );

    orderbook.process_order(order1);
    orderbook.process_order(order2);
    orderbook.process_order(order3);

    assert_eq!(orderbook.current_spread(), Some((fixed(10.0), fixed(12.0))));

    // wider spread
    let order4 = orders::new_limit_order_request(
        order_asset,
        price_asset,
        OrderSide::Bid,
        fixed(14.0),
        fixed(1.5),
        clock.now(),
    );
    let res = orderbook.process_order(order4);
    println!("{:?}", res);

    assert_eq!(orderbook.current_spread(), Some((fixed(10.0), fixed(12.5))));
}

fn book() -> Orderbook<Asset> {
    Orderbook::new(Asset::BTC, Asset::USD)
}

fn limit(side: OrderSide, price: u64, qty: u64, ts: u64) -> orders::OrderRequest<Asset> {
    orders::new_limit_order_request(Asset::BTC, Asset::USD, side, price, qty, ts)
}

fn market(side: OrderSide, qty: u64, ts: u64) -> orders::OrderRequest<Asset> {
    orders::new_market_order_request(Asset::BTC, Asset::USD, side, qty, ts)
}

#[test]
fn events_carry_the_given_time_in_emission_order() {
    let mut orderbook = book();
    assert_eq!(
        orderbook.process_order_at(limit(OrderSide::Bid, 1000, 100, 1), 70),
        vec![Ok(Success::Accepted { id: 1, order_type: OrderType::Limit, ts: 70 })]
    );
    assert_eq!(
        orderbook.process_order_at(limit(OrderSide::Bid, 1200, 100, 2), 71),
        vec![Ok(Success::Accepted { id: 2, order_type: OrderType::Limit, ts: 71 })]
    );
    // the taker is reported before the resting order in each trade
    assert_eq!(
        orderbook.process_order_at(market(OrderSide::Ask, 150, 3), 72),
        vec![
            Ok(Success::Accepted { id: 3, order_type: OrderType::Market, ts: 72 }),
            Ok(Success::PartiallyFilled {
                order_id: 3,
                side: OrderSide::Ask,
                order_type: OrderType::Market,
                price: 1200,
                qty: 100,
                ts: 72
            }),
            Ok(Success::Filled {
                order_id: 2,
                side: OrderSide::Bid,
                order_type: OrderType::Limit,
                price: 1200,
                qty: 100,
                ts: 72
            }),
            Ok(Success::Filled {
                order_id: 3,
                side: OrderSide::Ask,
                order_type: OrderType::Market,
                price: 1000,
                qty: 50,
                ts: 72
            }),
            Ok(Success::PartiallyFilled {
                order_id: 1,
                side: OrderSide::Bid,
                order_type: OrderType::Limit,
                price: 1000,
                qty: 50,
                ts: 72
            }),
        ]
    );
    // what is left of order 1 is 50 at 1000
    assert_eq!(
        orderbook.process_order_at(market(OrderSide::Ask, 50, 4), 73),
        vec![
            Ok(Success::Accepted { id: 4, order_type: OrderType::Market, ts: 73 }),
            Ok(Success::Filled {
                order_id: 4,
                side: OrderSide::Ask,
                order_type: OrderType::Market,
                price: 1000,
                qty: 50,
                ts: 73
            }),
            Ok(Success::Filled {
                order_id: 1,
                side: OrderSide::Bid,
                order_type: OrderType::Limit,
                price: 1000,
                qty: 50,
                ts: 73
            }),
        ]
    );
}

#[test]
fn market_order_keeps_fills_when_book_runs_dry() {
    let mut orderbook = book();
    orderbook.process_order_at(limit(OrderSide::Ask, 500, 10, 1), 1);
    assert_eq!(
        orderbook.process_order_at(market(OrderSide::Bid, 25, 2), 9),
        vec![
            Ok(Success::Accepted { id: 2, order_type: OrderType::Market, ts: 9 }),
            Ok(Success::PartiallyFilled {
                order_id: 2,
                side: OrderSide::Bid,
                order_type: OrderType::Market,
                price: 500,
                qty: 10,
                ts: 9
            }),
            Ok(Success::Filled {
                order_id: 1,
                side: OrderSide::Ask,
                order_type: OrderType::Limit,
                price: 500,
                qty: 10,
                ts: 9
            }),
            Err(Failed::NoMatch(2)),
        ]
    );
    assert_eq!(orderbook.current_spread(), None);
}

#[test]
fn crossing_limit_rests_its_remainder() {
    let mut orderbook = book();
    orderbook.process_order_at(limit(OrderSide::Ask, 500, 10, 1), 1);
    orderbook.process_order_at(limit(OrderSide::Ask, 600, 10, 2), 1);
    // takes all at 500, stops at 600, rests 5 at 550
    let res = orderbook.process_order_at(limit(OrderSide::Bid, 550, 15, 3), 4);
    assert_eq!(
        res,
        vec![
            Ok(Success::Accepted { id: 3, order_type: OrderType::Limit, ts: 4 }),
            Ok(Success::PartiallyFilled {
                order_id: 3,
                side: OrderSide::Bid,
                order_type: OrderType::Limit,
                price: 500,
                qty: 10,
                ts: 4
            }),
            Ok(Success::Filled {
                order_id: 1,
                side: OrderSide::Ask,
                order_type: OrderType::Limit,
                price: 500,
                qty: 10,
                ts: 4
            }),
        ]
    );
    assert_eq!(orderbook.current_spread(), Some((550, 600)));
    // the rest trades as a resting bid of 5
    assert_eq!(
        orderbook.process_order_at(market(OrderSide::Ask, 5, 5), 6),
        vec![
            Ok(Success::Accepted { id: 4, order_type: OrderType::Market, ts: 6 }),
            Ok(Success::Filled {
                order_id: 4,
                side: OrderSide::Ask,
                order_type: OrderType::Market,
                price: 550,
                qty: 5,
                ts: 6
            }),
            Ok(Success::Filled {
                order_id: 3,
                side: OrderSide::Bid,
                order_type: OrderType::Limit,
                price: 550,
                qty: 5,
                ts: 6
            }),
        ]
    );
}

#[test]
fn limit_at_the_touch_trades() {
    let mut orderbook = book();
    orderbook.process_order_at(limit(OrderSide::Ask, 500, 10, 1), 1);
    let res = orderbook.process_order_at(limit(OrderSide::Bid, 500, 10, 2), 2);
    assert_eq!(res.len(), 3);
    assert_eq!(orderbook.current_spread(), None);
    // nothing rests on either side
    assert_eq!(
        orderbook.process_order_at(market(OrderSide::Bid, 1, 3), 3),
        vec![
            Ok(Success::Accepted { id: 3, order_type: OrderType::Market, ts: 3 }),
            Err(Failed::NoMatch(3)),
        ]
    );
    assert_eq!(
        orderbook.process_order_at(market(OrderSide::Ask, 1, 4), 4),
        vec![
            Ok(Success::Accepted { id: 4, order_type: OrderType::Market, ts: 4 }),
            Err(Failed::NoMatch(4)),
        ]
    );
}

#[test]
fn older_order_trades_first_at_equal_price() {
    let mut orderbook = book();
    orderbook.process_order_at(limit(OrderSide::Ask, 500, 10, 20), 1);
    orderbook.process_order_at(limit(OrderSide::Ask, 500, 10, 10), 1);
    let res = orderbook.process_order_at(market(OrderSide::Bid, 10, 30), 2);
    assert_eq!(
        res[2],
        Ok(Success::Filled {
            order_id: 2,
            side: OrderSide::Ask,
            order_type: OrderType::Limit,
            price: 500,
            qty: 10,
            ts: 2
        })
    );
}

#[test]
fn cancel_round_trip() {
    let mut orderbook = book();
    orderbook.process_order_at(limit(OrderSide::Ask, 1_020_000, 1_000_000, 1), 1);
    assert_eq!(
        orderbook.process_order_at(orders::limit_order_cancel_request(1, OrderSide::Ask), 2),
        vec![Ok(Success::Cancelled { id: 1, ts: 2 })]
    );
    assert_eq!(
        orderbook.process_order_at(orders::limit_order_cancel_request(1, OrderSide::Ask), 3),
        vec![Err(Failed::OrderNotFound(1))]
    );
    assert_eq!(
        orderbook.process_order_at(market(OrderSide::Bid, 1, 4), 4),
        vec![
            Ok(Success::Accepted { id: 2, order_type: OrderType::Market, ts: 4 }),
            Err(Failed::NoMatch(2)),
        ]
    );
}

#[test]
fn cancel_on_the_wrong_side_finds_nothing() {
    let mut orderbook = book();
    orderbook.process_order_at(limit(OrderSide::Ask, 500, 10, 1), 1);
    assert_eq!(
        orderbook.process_order_at(orders::limit_order_cancel_request(1, OrderSide::Bid), 2),
        vec![Err(Failed::OrderNotFound(1))]
    );
}

#[test]
fn amend_changing_only_quantity() {
    let mut orderbook = book();
    orderbook.process_order_at(limit(OrderSide::Bid, 500, 10, 1), 1);
    assert_eq!(
        orderbook.process_order_at(orders::amend_order_request(1, OrderSide::Bid, 500, 4, 2), 3),
        vec![Ok(Success::Amended { id: 1, price: 500, qty: 4, ts: 3 })]
    );
    let res = orderbook.process_order_at(market(OrderSide::Ask, 10, 4), 5);
    assert_eq!(
        res,
        vec![
            Ok(Success::Accepted { id: 2, order_type: OrderType::Market, ts: 5 }),
            Ok(Success::PartiallyFilled {
                order_id: 2,
                side: OrderSide::Ask,
                order_type: OrderType::Market,
                price: 500,
                qty: 4,
                ts: 5
            }),
            Ok(Success::Filled {
                order_id: 1,
                side: OrderSide::Bid,
                order_type: OrderType::Limit,
                price: 500,
                qty: 4,
                ts: 5
            }),
            Err(Failed::NoMatch(2)),
        ]
    );
}

#[test]
fn amend_changing_only_price() {
    let mut orderbook = book();
    orderbook.process_order_at(limit(OrderSide::Bid, 500, 10, 1), 1);
    orderbook.process_order_at(limit(OrderSide::Bid, 520, 10, 2), 1);
    orderbook.process_order_at(limit(OrderSide::Ask, 600, 10, 3), 1);
    assert_eq!(orderbook.current_spread(), Some((520, 600)));
    assert_eq!(
        orderbook.process_order_at(orders::amend_order_request(1, OrderSide::Bid, 540, 10, 4), 2),
        vec![Ok(Success::Amended { id: 1, price: 540, qty: 10, ts: 2 })]
    );
    assert_eq!(orderbook.current_spread(), Some((540, 600)));
    assert_eq!(
        orderbook.process_order_at(orders::amend_order_request(1, OrderSide::Bid, 510, 10, 5), 3),
        vec![Ok(Success::Amended { id: 1, price: 510, qty: 10, ts: 3 })]
    );
    assert_eq!(orderbook.current_spread(), Some((520, 600)));
}

#[test]
fn amend_of_unknown_order_is_not_found() {
    let mut orderbook = book();
    orderbook.process_order_at(limit(OrderSide::Bid, 500, 10, 1), 1);
    assert_eq!(
        orderbook.process_order_at(orders::amend_order_request(2, OrderSide::Bid, 510, 10, 2), 2),
        vec![Err(Failed::OrderNotFound(2))]
    );
    assert_eq!(
        orderbook.process_order_at(orders::amend_order_request(1, OrderSide::Ask, 510, 10, 2), 2),
        vec![Err(Failed::OrderNotFound(1))]
    );
}

#[test]
fn amend_that_would_cross_is_refused() {
    let mut orderbook = book();
    orderbook.process_order_at(limit(OrderSide::Bid, 500, 10, 1), 1);
    orderbook.process_order_at(limit(OrderSide::Ask, 600, 10, 2), 1);
    assert_eq!(
        orderbook.process_order_at(orders::amend_order_request(1, OrderSide::Bid, 600, 10, 3), 2),
        vec![Err(Failed::AmendWouldCross(1))]
    );
    assert_eq!(
        orderbook.process_order_at(orders::amend_order_request(2, OrderSide::Ask, 499, 10, 3), 2),
        vec![Err(Failed::AmendWouldCross(2))]
    );
    assert_eq!(orderbook.current_spread(), Some((500, 600)));
    assert_eq!(
        orderbook.process_order_at(orders::amend_order_request(1, OrderSide::Bid, 599, 10, 3), 2),
        vec![Ok(Success::Amended { id: 1, price: 599, qty: 10, ts: 2 })]
    );
    assert_eq!(orderbook.current_spread(), Some((599, 600)));
}

#[test]
fn bad_order_asset_is_rejected() {
    let mut orderbook = book();
    let request = orders::new_limit_order_request(Asset::ETH, Asset::USD, OrderSide::Bid, 1, 1, 1);
    assert_eq!(
        orderbook.process_order_at(request, 1),
        vec![Err(Failed::ValidationFailed(ValidationError::BadOrderAsset))]
    );
    // both assets wrong: the order asset is reported
    let request = orders::new_market_order_request(Asset::OTN, Asset::EUR, OrderSide::Bid, 1, 1);
    assert_eq!(
        orderbook.process_order_at(request, 1),
        vec![Err(Failed::ValidationFailed(ValidationError::BadOrderAsset))]
    );
}

#[test]
fn bad_price_asset_is_rejected() {
    let mut orderbook = book();
    let request = orders::new_limit_order_request(Asset::BTC, Asset::EUR, OrderSide::Bid, 0, 0, 1);
    assert_eq!(
        orderbook.process_order_at(request, 1),
        vec![Err(Failed::ValidationFailed(ValidationError::BadPriceAsset))]
    );
}

#[test]
fn zero_price_is_rejected() {
    let mut orderbook = book();
    assert_eq!(
        orderbook.process_order_at(limit(OrderSide::Bid, fixed(0.0), 0, 1), 1),
        vec![Err(Failed::ValidationFailed(ValidationError::BadPriceValue))]
    );
    assert_eq!(
        orderbook.process_order_at(orders::amend_order_request(5000, OrderSide::Bid, 0, 0, 1), 1),
        vec![Err(Failed::ValidationFailed(ValidationError::BadPriceValue))]
    );
}

#[test]
fn not_a_number_is_rejected() {
    let mut orderbook = book();
    assert_eq!(
        orderbook.process_order_at(limit(OrderSide::Bid, fixed(f64::NAN), fixed(1.0), 1), 1),
        vec![Err(Failed::ValidationFailed(ValidationError::BadPriceValue))]
    );
    assert_eq!(
        orderbook.process_order_at(market(OrderSide::Bid, fixed(f64::NAN), 1), 1),
        vec![Err(Failed::ValidationFailed(ValidationError::BadQuantityValue))]
    );
}

#[test]
fn zero_quantity_is_rejected() {
    let mut orderbook = book();
    assert_eq!(
        orderbook.process_order_at(market(OrderSide::Ask, 0, 1), 1),
        vec![Err(Failed::ValidationFailed(ValidationError::BadQuantityValue))]
    );
    assert_eq!(
        orderbook.process_order_at(limit(OrderSide::Ask, 1, 0, 1), 1),
        vec![Err(Failed::ValidationFailed(ValidationError::BadQuantityValue))]
    );
    assert_eq!(
        orderbook.process_order_at(orders::amend_order_request(1, OrderSide::Bid, 1, 0, 1), 1),
        vec![Err(Failed::ValidationFailed(ValidationError::BadQuantityValue))]
    );
}

#[test]
fn id_out_of_range_is_rejected() {
    let mut orderbook = book();
    assert_eq!(
        orderbook.process_order_at(orders::limit_order_cancel_request(0, OrderSide::Bid), 1),
        vec![Err(Failed::ValidationFailed(ValidationError::BadSequenceId))]
    );
    assert_eq!(
        orderbook.process_order_at(orders::limit_order_cancel_request(1001, OrderSide::Ask), 1),
        vec![Err(Failed::ValidationFailed(ValidationError::BadSequenceId))]
    );
    assert_eq!(
        orderbook.process_order_at(orders::amend_order_request(1001, OrderSide::Ask, 1, 1, 1), 1),
        vec![Err(Failed::ValidationFailed(ValidationError::BadSequenceId))]
    );
    assert_eq!(
        orderbook.process_order_at(orders::limit_order_cancel_request(1000, OrderSide::Ask), 1),
        vec![Err(Failed::OrderNotFound(1000))]
    );
}

#[test]
fn rejected_request_uses_no_id() {
    let mut orderbook = book();
    orderbook.process_order_at(market(OrderSide::Ask, 0, 1), 1);
    assert_eq!(
        orderbook.process_order_at(limit(OrderSide::Ask, 5, 5, 1), 2),
        vec![Ok(Success::Accepted { id: 1, order_type: OrderType::Limit, ts: 2 })]
    );
}

#[test]
fn very_large_price_and_quantity_are_accepted() {
    let mut orderbook = book();
    assert_eq!(
        orderbook.process_order_at(limit(OrderSide::Ask, u64::MAX, u64::MAX, 1), 1),
        vec![Ok(Success::Accepted { id: 1, order_type: OrderType::Limit, ts: 1 })]
    );
    assert_eq!(
        orderbook.process_order_at(limit(OrderSide::Bid, u64::MAX, 1, 2), 2),
        vec![
            Ok(Success::Accepted { id: 2, order_type: OrderType::Limit, ts: 2 }),
            Ok(Success::Filled {
                order_id: 2,
                side: OrderSide::Bid,
                order_type: OrderType::Limit,
                price: u64::MAX,
                qty: 1,
                ts: 2
            }),
            Ok(Success::PartiallyFilled {
                order_id: 1,
                side: OrderSide::Ask,
                order_type: OrderType::Limit,
                price: u64::MAX,
                qty: 1,
                ts: 2
            }),
        ]
    );
}

#[test]
fn ids_start_over_after_the_last_and_collide_with_resting_orders() {
    let mut orderbook = book();
    // order 1 rests far from the market
    orderbook.process_order_at(limit(OrderSide::Bid, 1, 1, 1), 1);
    for n in 2..=1000u64 {
        let res = orderbook.process_order_at(market(OrderSide::Bid, 1, n), n);
        assert_eq!(res[0], Ok(Success::Accepted { id: n, order_type: OrderType::Market, ts: n }));
    }
    // the next id is 1 again, which still rests on the bid side
    assert_eq!(
        orderbook.process_order_at(limit(OrderSide::Bid, 2, 1, 1001), 1001),
        vec![
            Ok(Success::Accepted { id: 1, order_type: OrderType::Limit, ts: 1001 }),
            Err(Failed::DuplicateOrderID(1)),
        ]
    );
    assert_eq!(
        orderbook.process_order_at(limit(OrderSide::Ask, 9, 1, 1002), 1002),
        vec![Ok(Success::Accepted { id: 2, order_type: OrderType::Limit, ts: 1002 })]
    );
    assert_eq!(orderbook.current_spread(), Some((1, 9)));
}

#[test]
fn book_never_rests_crossed() {
    let mut orderbook = book();
    let mut state: u64 = 99;
    for n in 1..=600u64 {
        state = state.wrapping_mul(6364136223846793005).wrapping_add(1442695040888963407);
        let side = if (state >> 20) % 2 == 0 { OrderSide::Bid } else { OrderSide::Ask };
        let price = (state >> 33) % 40 + 1;
        let qty = (state >> 45) % 9 + 1;
        let request = match (state >> 50) % 5 {
            0 => market(side, qty, n),
            1 => orders::limit_order_cancel_request((state >> 8) % 600 + 1, side),
            2 => orders::amend_order_request((state >> 8) % 600 + 1, side, price, qty, n),
            _ => limit(side, price, qty, n),
        };
        let res = orderbook.process_order_at(request, n);
        let mut taken: u64 = 0;
        let mut given: u64 = 0;
        for event in res.iter() {
            match event {
                Ok(Success::Filled { order_type: OrderType::Market, qty, .. })
                | Ok(Success::PartiallyFilled { order_type: OrderType::Market, qty, .. }) => {
                    taken += qty
                }
                _ => (),
            }
            match event {
                Ok(Success::Filled { qty, .. }) | Ok(Success::PartiallyFilled { qty, .. }) => {
                    assert!(*qty > 0);
                    given += qty
                }
                _ => (),
            }
        }
        assert!(given % 2 == 0);
        assert!(taken <= qty);
        if let Some((bid, ask)) = orderbook.current_spread() {
            assert!(bid < ask);
        }
    }
}

#[test]
fn process_order_stamps_reports_with_the_clock() {
    let mut clock = Clock::new();
    let before = clock.now();
    let mut orderbook = book();
    orderbook.process_order(limit(OrderSide::Bid, 1000, 100, 1));
    let res = orderbook.process_order(market(OrderSide::Ask, 150, 2));
    let after = clock.now();
    assert_eq!(res.len(), 4);
    let mut stamps: Vec<u64> = Vec::new();
    for event in res.iter() {
        match event {
            Ok(Success::Accepted { ts, .. })
            | Ok(Success::Filled { ts, .. })
            | Ok(Success::PartiallyFilled { ts, .. }) => stamps.push(*ts),
            _ => (),
        }
    }
    assert_eq!(stamps.len(), 3);
    assert!(stamps.iter().all(|ts| *ts == stamps[0]));
    assert!(before <= stamps[0] && stamps[0] <= after);
    assert_eq!(res[3], Err(Failed::NoMatch(2)));
}

#[test]
fn quantity_is_neither_made_nor_lost() {
    let mut orderbook = book();
    // 60 rest on the ask side
    orderbook.process_order_at(limit(OrderSide::Ask, 500, 10, 1), 1);
    orderbook.process_order_at(limit(OrderSide::Ask, 510, 20, 2), 1);
    orderbook.process_order_at(limit(OrderSide::Ask, 530, 30, 3), 1);
    // a bid for 25 at 520 takes 10 at 500 and 15 at 510, and rests nothing
    let res = orderbook.process_order_at(limit(OrderSide::Bid, 520, 25, 4), 2);
    let mut taken: u64 = 0;
    let mut given: u64 = 0;
    for event in res.iter() {
        match event {
            Ok(Success::Filled { order_id, qty, .. })
            | Ok(Success::PartiallyFilled { order_id, qty, .. }) => {
                if *order_id == 4 {
                    taken += qty
                } else {
                    given += qty
                }
            }
            _ => (),
        }
    }
    assert_eq!(taken, 25);
    assert_eq!(given, 25);
    assert_eq!(res.last(), Some(&Ok(Success::PartiallyFilled {
        order_id: 2,
        side: OrderSide::Ask,
        order_type: OrderType::Limit,
        price: 510,
        qty: 15,
        ts: 2
    })));
    // a bid for 50 at 600 finds the 35 that are left, and rests 15
    let res = orderbook.process_order_at(limit(OrderSide::Bid, 600, 50, 5), 3);
    let mut taken: u64 = 0;
    for event in res.iter() {
        match event {
            Ok(Success::Filled { order_id: 5, qty, .. })
            | Ok(Success::PartiallyFilled { order_id: 5, qty, .. }) => taken += qty,
            _ => (),
        }
    }
    assert_eq!(taken, 35);
    assert!(!res.iter().any(|e| matches!(e, Ok(Success::Filled { order_id: 5, .. }))));
    assert_eq!(orderbook.current_spread(), None);
    assert_eq!(
        orderbook.process_order_at(market(OrderSide::Ask, 20, 6), 4),
        vec![
            Ok(Success::Accepted { id: 6, order_type: OrderType::Market, ts: 4 }),
            Ok(Success::PartiallyFilled {
                order_id: 6,
                side: OrderSide::Ask,
                order_type: OrderType::Market,
                price: 600,
                qty: 15,
                ts: 4
            }),
            Ok(Success::Filled {
                order_id: 5,
                side: OrderSide::Bid,
                order_type: OrderType::Limit,
                price: 600,
                qty: 15,
                ts: 4
            }),
            Err(Failed::NoMatch(6)),
        ]
    );
}
