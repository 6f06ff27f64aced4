use orderbook::engine::clock::{now, timestamp_of};
use std::time::{SystemTime, UNIX_EPOCH};

#[test]
fn timestamp_of_a_reading() {
    assert_eq!(timestamp_of(None), 0);
    assert_eq!(timestamp_of(Some(0)), 0);
    assert_eq!(timestamp_of(Some(1_700_000_000_000_000_000)), 1_700_000_000_000_000_000);
    assert_eq!(timestamp_of(Some(u64::MAX as u128)), u64::MAX);
    assert_eq!(timestamp_of(Some(u64::MAX as u128 + 1)), u64::MAX);
    assert_eq!(timestamp_of(Some(u128::MAX)), u64::MAX);
}

#[test]
fn now_reads_the_system_clock() {
    let before = SystemTime::now().duration_since(UNIX_EPOCH).unwrap().as_nanos() as u64;
    let reading = now();
    let after = SystemTime::now().duration_since(UNIX_EPOCH).unwrap().as_nanos() as u64;
    assert!(before <= reading);
    assert!(reading <= after);
}
