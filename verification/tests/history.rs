use hw_monitor::history::{is_fresh, History, CAPACITY};

#[test]
fn stale_or_unknown_samples_are_ignored() {
    let mut h: History<u32> = History::new();
    h.push(0, 1);
    assert_eq!(h.len(), 0);
    h.push(10, 1);
    h.push(10, 2);
    h.push(9, 3);
    assert_eq!(h.len(), 1);
    assert_eq!(*h.sample(0), 1);
    h.push(11, 4);
    assert_eq!(h.len(), 2);
    assert_eq!(h.timestamp(1), 11);
    assert_eq!(*h.sample(1), 4);
}

#[test]
fn keeps_the_newest_samples() {
    let mut h: History<u64> = History::new();
    for t in 1..=(CAPACITY as u64 + 5) {
        h.push(t, t * 2);
    }
    assert_eq!(h.len(), CAPACITY);
    assert_eq!(h.timestamp(0), 6);
    assert_eq!(*h.sample(CAPACITY - 1), (CAPACITY as u64 + 5) * 2);
}

#[test]
fn recent_samples() {
    let mut h: History<()> = History::new();
    assert_eq!(h.recent_start(5), None);
    for t in [100u64, 200, 300, 400, 460] {
        h.push(t, ());
    }
    // the last minute before 460 starts at 400
    assert_eq!(h.recent_start(1), Some(3));
    assert_eq!(h.recent_start(5), Some(1));
    assert_eq!(h.recent_start(60), Some(0));
    assert_eq!(h.recent_start(0), Some(4));
}

#[test]
fn freshness_of_snapshots() {
    assert!(is_fresh(Some(1_000), Some(996)));
    assert!(!is_fresh(Some(1_000), Some(995)));
    assert!(is_fresh(Some(1_000), Some(1_010)));
    assert!(!is_fresh(None, Some(1_000)));
    assert!(!is_fresh(Some(1_000), None));
}
