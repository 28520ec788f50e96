use ratelimit_rs::counter::{RLEntry, BLOCK_SIZE, CLEANUP_MARGIN, REBASE_AT};

#[test]
fn constants() {
    assert_eq!(BLOCK_SIZE, 64);
    assert_eq!(REBASE_AT, u32::MAX / 2);
    assert_eq!(CLEANUP_MARGIN, 1000);
}

#[test]
fn counter_of_one_slot() {
    let mut entry = RLEntry::new(1_000, 1);
    assert!(entry.hit(1_000, 1, 500));
    assert!(!entry.hit(1_000, 1, 500));
    assert!(!entry.hit(1_499, 1, 500));
    assert!(entry.hit(1_500, 1, 500));
    assert!(!entry.is_expired(1_500 + 500 + 999, 500));
    assert!(entry.is_expired(1_500 + 500 + 1_000, 500));
}

#[test]
fn counter_goes_round() {
    let size: u32 = 3;
    let mut entry = RLEntry::new(0, size);
    // Three slots: the fourth hit needs the first to be a window old.
    assert!(entry.hit(0, size, 100));
    assert!(entry.hit(10, size, 100));
    assert!(entry.hit(20, size, 100));
    assert!(!entry.hit(99, size, 100));
    assert!(entry.hit(100, size, 100));
    assert!(!entry.hit(109, size, 100));
    assert!(entry.hit(110, size, 100));
    assert!(entry.hit(120, size, 100));
    assert!(!entry.hit(199, size, 100));
    // The most recent hit is the one at 120.
    assert!(!entry.is_expired(120 + 100 + 999, 100));
    assert!(entry.is_expired(120 + 100 + 1_000, 100));
}

#[test]
fn counter_moves_its_epoch() {
    // One hit every 20 days, one slot, a window of 20 days: each hit finds
    // the one before it exactly a window old.
    let step: u64 = 20 * 86_400_000;
    let mut entry = RLEntry::new(7, 1);
    for i in 0..100u64 {
        assert!(entry.hit(7 + i * step, 1, step as u32));
        assert!(!entry.hit(7 + i * step + step - 1, 1, step as u32));
    }
}

#[test]
fn counter_reads_the_clock_after_a_long_rest() {
    let day: u64 = 86_400_000;
    let window: u32 = 30 * 86_400_000;
    let mut entry = RLEntry::new(0, 1);
    assert!(entry.hit(0, 1, window));
    assert!(entry.hit(30 * day + 500, 1, window));
    assert!(!entry.hit(60 * day + 499, 1, window));
    assert!(entry.hit(60 * day + 1000, 1, window));
    assert!(!entry.is_expired(90 * day + 1000 + 999, window));
    assert!(entry.is_expired(90 * day + 1000 + 1000, window));
}
