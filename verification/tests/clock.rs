use local_lru::clock::reading_or_epoch;

#[test]
fn a_reading_is_taken_as_it_is() {
    assert_eq!(reading_or_epoch(Some(1_700_000_000_123)), 1_700_000_000_123);
    assert_eq!(reading_or_epoch(Some(0)), 0);
    assert_eq!(reading_or_epoch(Some(u128::MAX)), u128::MAX);
}

#[test]
fn a_clock_before_the_epoch_reads_as_the_epoch() {
    assert_eq!(reading_or_epoch(None), 0);
}
