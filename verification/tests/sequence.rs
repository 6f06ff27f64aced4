use orderbook::sequence::new_sequence_gen;

#[test]
fn seq_from_zero() {
    let mut seq_gen = new_sequence_gen(0, 2);

    assert_eq!(seq_gen.current_idx(), 0);
    assert_eq!(seq_gen.next_id(), 0);
    assert_eq!(seq_gen.next_id(), 1);
    assert_eq!(seq_gen.next_id(), 2);
    assert_eq!(seq_gen.next_id(), 0);
}

#[test]
fn seq_from_positive() {
    let mut seq_gen = new_sequence_gen(1, 2);

    assert_eq!(seq_gen.current_idx(), 1);
    assert_eq!(seq_gen.next_id(), 1);
    assert_eq!(seq_gen.next_id(), 2);
    assert_eq!(seq_gen.next_id(), 1);
}

#[test]
fn seq_single_id_repeats() {
    let mut seq_gen = new_sequence_gen(7, 7);
    assert_eq!(seq_gen.next_id(), 7);
    assert_eq!(seq_gen.next_id(), 7);
}

#[test]
fn seq_wraps_at_the_largest_number() {
    let mut seq_gen = new_sequence_gen(u64::MAX - 1, u64::MAX);
    assert_eq!(seq_gen.next_id(), u64::MAX - 1);
    assert_eq!(seq_gen.next_id(), u64::MAX);
    assert_eq!(seq_gen.next_id(), u64::MAX - 1);
}
