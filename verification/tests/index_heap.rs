use orderbook::engine::index_heap::{IndexHeap, OrderIndex};
use orderbook::OrderSide;
use std::cmp::Ordering;

fn entry(id: u64, price: u64, timestamp: u64) -> OrderIndex {
    OrderIndex { id, price, timestamp }
}

#[test]
fn outranks_prefers_better_price_per_side() {
    let low = entry(1, 10, 1);
    let high = entry(2, 11, 2);
    assert!(high.outranks(&low, OrderSide::Bid));
    assert!(!low.outranks(&high, OrderSide::Bid));
    assert!(low.outranks(&high, OrderSide::Ask));
    assert!(!high.outranks(&low, OrderSide::Ask));
}

#[test]
fn outranks_prefers_earlier_time_then_lower_id() {
    let early = entry(5, 10, 1);
    let late = entry(4, 10, 2);
    assert!(early.outranks(&late, OrderSide::Bid));
    assert!(early.outranks(&late, OrderSide::Ask));
    assert!(!late.outranks(&early, OrderSide::Ask));
    let twin = entry(6, 10, 1);
    assert!(early.outranks(&twin, OrderSide::Bid));
    assert!(!twin.outranks(&early, OrderSide::Bid));
    assert!(!early.outranks(&early, OrderSide::Bid));
}

#[test]
fn heap_hands_out_best_first() {
    let mut heap = IndexHeap::new(OrderSide::Ask, 4);
    assert_eq!(heap.peek(), None);
    assert_eq!(heap.pop(), None);
    heap.push(entry(1, 30, 1));
    heap.push(entry(2, 10, 2));
    heap.push(entry(3, 20, 3));
    heap.push(entry(4, 10, 4));
    assert_eq!(heap.len(), 4);
    assert_eq!(heap.peek(), Some(entry(2, 10, 2)));
    assert_eq!(heap.pop(), Some(entry(2, 10, 2)));
    assert_eq!(heap.pop(), Some(entry(4, 10, 4)));
    assert_eq!(heap.pop(), Some(entry(3, 20, 3)));
    assert_eq!(heap.pop(), Some(entry(1, 30, 1)));
    assert_eq!(heap.pop(), None);
    assert_eq!(heap.len(), 0);
}

#[test]
fn heap_take_entries_empties_the_heap() {
    let mut heap = IndexHeap::new(OrderSide::Bid, 0);
    heap.push(entry(1, 5, 1));
    heap.push(entry(2, 7, 2));
    heap.push(entry(2, 7, 2));
    let mut taken = heap.take_entries();
    taken.sort_by_key(|e| (e.id, e.price, e.timestamp));
    assert_eq!(taken, vec![entry(1, 5, 1), entry(2, 7, 2), entry(2, 7, 2)]);
    assert_eq!(heap.len(), 0);
    assert_eq!(heap.pop(), None);
}

#[test]
fn cmp_goes_by_price_then_time() {
    let low = entry(1, 10, 1);
    let high = entry(2, 11, 2);
    assert_eq!(high.cmp(&low, OrderSide::Bid), Ordering::Greater);
    assert_eq!(low.cmp(&high, OrderSide::Bid), Ordering::Less);
    assert_eq!(high.cmp(&low, OrderSide::Ask), Ordering::Less);
    assert_eq!(low.cmp(&high, OrderSide::Ask), Ordering::Greater);
    let early = entry(3, 10, 1);
    let late = entry(4, 10, 2);
    assert_eq!(early.cmp(&late, OrderSide::Bid), Ordering::Greater);
    assert_eq!(early.cmp(&late, OrderSide::Ask), Ordering::Greater);
    assert_eq!(late.cmp(&early, OrderSide::Bid), Ordering::Less);
    assert_eq!(late.cmp(&early, OrderSide::Ask), Ordering::Less);
}

#[test]
fn cmp_leaves_ids_out() {
    let one = entry(9, 10, 5);
    let other = entry(4, 10, 5);
    assert_eq!(one.cmp(&other, OrderSide::Bid), Ordering::Equal);
    assert_eq!(other.cmp(&one, OrderSide::Bid), Ordering::Equal);
    assert_eq!(one.cmp(&other, OrderSide::Ask), Ordering::Equal);
    assert_eq!(one.cmp(&one, OrderSide::Ask), Ordering::Equal);
    // the heap's own rule decides between them
    assert!(other.outranks(&one, OrderSide::Bid));
    assert!(!one.outranks(&other, OrderSide::Bid));
}
