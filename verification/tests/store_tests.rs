use coalesced_intervals::CoalescedIntervals;

#[test]
fn empty() {
    let ivals = CoalescedIntervals::new();
    assert_eq!(ivals.to_vec(), []);
}

/// Adding a single interval with no area.
#[test]
fn with_empty_range() {
    let mut ivals = CoalescedIntervals::new();
    ivals.add(0, 0);
    assert_eq!(ivals.to_vec(), []);
    assert!(ivals.get_interval_containing(0).is_none());
}

/// Adding a single interval (that has area in it).
#[test]
fn one_interval_range() {
    let mut ivals = CoalescedIntervals::new();
    ivals.add(0, 1);
    assert_eq!(ivals.to_vec(), [(0, 1)]);
    assert_eq!(ivals.get_interval_containing(0), Some((0, 1)));
    assert!(ivals.get_interval_containing(1).is_none());
}

/// Adding two intervals that coalesce.
#[test]
fn two_interval_abutted() {
    let mut ivals = CoalescedIntervals::new();
    ivals.add(0, 1);
    assert!(ivals.get_interval_containing(1).is_none());
    ivals.add(1, 2);
    assert_eq!(ivals.to_vec(), [(0, 2)]);
    assert_eq!(ivals.get_interval_containing(1), Some((0, 2)));
}

/// Adding three intervals that coalesce when third one shows up.
#[test]
fn three_interval_abutted() {
    let mut ivals = CoalescedIntervals::new();
    ivals.add(0, 1);
    ivals.add(2, 3);
    assert_eq!(ivals.to_vec(), [(0, 1), (2, 3)]);
    ivals.add(1, 2);
    assert_eq!(ivals.to_vec(), [(0, 3)]);
}

/// Adding a smaller interval when a larger interval is already present with
/// the same start.
#[test]
fn test_smaller_on_larger() {
    let mut ivals = CoalescedIntervals::new();
    ivals.add(0, 3);
    assert_eq!(ivals.to_vec(), [(0, 3)]);
    ivals.add(0, 1);
    assert_eq!(ivals.to_vec(), [(0, 3)]);
}

/// Partial overlap between earlier and subsequent.
#[test]
fn test_partial_overlap() {
    let mut ivals = CoalescedIntervals::new();
    ivals.add(0, 3);
    assert_eq!(ivals.to_vec(), [(0, 3)]);
    ivals.add(2, 4);
    assert_eq!(ivals.to_vec(), [(0, 4)]);
}
