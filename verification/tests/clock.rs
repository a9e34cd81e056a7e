use server_utils::clock::{now, since_epoch};

#[test]
fn clock_reads_after_the_epoch_and_does_not_stand_still() {
    let first = now();
    assert!(first > 1_600_000_000u128 * 1_000_000_000);
    let mut later = now();
    while later == first {
        later = now();
    }
    assert!(later > first);
}

#[test]
fn clock_before_the_epoch_reads_as_the_epoch() {
    assert_eq!(since_epoch(None), 0);
    assert_eq!(since_epoch(Some(0)), 0);
    assert_eq!(since_epoch(Some(1_700_000_000_000_000_000)), 1_700_000_000_000_000_000);
    assert_eq!(since_epoch(Some(u128::MAX)), u128::MAX);
}
