use coalesced_intervals::CoalescedIntervals;

/// Checks that a vector of intervals is strictly ascending, with a gap
/// between every adjacent pair, and that every interval has area.
fn check_vector(v: &[(i64, i64)]) {
    for i in 0..v.len() {
        let (start, limit) = v[i];
        assert!(limit > start);
        if i + 1 < v.len() {
            let (next_start, _next_limit) = v[i + 1];
            assert!(limit < next_start);
        }
    }
}

/// Sortedness and disjointness hold after an adversarial mix of additions.
#[test]
fn sorted_disjoint_after_many_adds() {
    let mut ivals = CoalescedIntervals::new();
    let additions = [
        (10, 12),
        (-5, -3),
        (0, 1),
        (11, 15),
        (-100, -50),
        (3, 3),
        (2, 2),
        (7, 9),
        (-4, 0),
        (20, 21),
    ];
    for (start, limit) in additions {
        ivals.add(start, limit);
        assert!(ivals.check_invariants());
        check_vector(&ivals.to_vec());
    }
    assert_eq!(ivals.to_vec(), [(-100, -50), (-5, 1), (7, 9), (10, 15), (20, 21)]);
}

/// Every value inside the union of the added ranges is reported as contained
/// by exactly the stored interval around it; every value outside reports
/// none.
#[test]
fn coverage_matches_added_union() {
    let mut ivals = CoalescedIntervals::new();
    ivals.add(0, 3);
    ivals.add(5, 6);
    ivals.add(6, 8);
    for v in -3..12 {
        let expected = if (0..3).contains(&v) {
            Some((0, 3))
        } else if (5..8).contains(&v) {
            Some((5, 8))
        } else {
            None
        };
        assert_eq!(ivals.get_interval_containing(v), expected);
    }
}

/// Walking with `get_first_start_from(previous_start + 1)` from the minimum
/// representable value enumerates exactly `to_vec()`, in order.
#[test]
fn traversal_equals_to_vec() {
    let mut ivals = CoalescedIntervals::new();
    for (start, limit) in [(4, 6), (-7, -2), (9, 9), (0, 1), (6, 7)] {
        ivals.add(start, limit);
    }

    let mut seen = Vec::new();
    let mut find_start_from = i64::MIN;
    while let Some((ival_start, ival_limit)) = ivals.get_first_start_from(find_start_from) {
        find_start_from = ival_start + 1;
        seen.push((ival_start, ival_limit));
    }
    assert_eq!(ivals.to_vec(), seen);
    assert_eq!(seen, [(-7, -2), (0, 1), (4, 7)]);
}

/// Re-adding intervals already fully covered by the stored set leaves
/// `to_vec()` unchanged.
#[test]
fn idempotent_readds() {
    let mut ivals = CoalescedIntervals::new();
    ivals.add(0, 4);
    ivals.add(4, 10);
    let before = ivals.to_vec();
    assert_eq!(before, [(0, 10)]);
    ivals.add(0, 10);
    assert_eq!(ivals.to_vec(), before);
    ivals.add(3, 7);
    assert_eq!(ivals.to_vec(), before);
    ivals.add(9, 10);
    assert_eq!(ivals.to_vec(), before);
    ivals.add(2, 2);
    assert_eq!(ivals.to_vec(), before);
}

/// Queries on an empty store find nothing.
#[test]
fn empty_store_queries() {
    let ivals = CoalescedIntervals::new();
    assert!(ivals.check_invariants());
    assert!(ivals.get_interval_containing(0).is_none());
    assert!(ivals.get_first_start_from(i64::MIN).is_none());
}

/// The store accepts the extreme representable values.
#[test]
fn extreme_values() {
    let mut ivals = CoalescedIntervals::new();
    ivals.add(i64::MIN, -1);
    ivals.add(1, i64::MAX);
    assert_eq!(ivals.to_vec(), [(i64::MIN, -1), (1, i64::MAX)]);
    assert_eq!(ivals.get_interval_containing(i64::MIN), Some((i64::MIN, -1)));
    assert!(ivals.get_interval_containing(-1).is_none());
    assert!(ivals.get_interval_containing(0).is_none());
    assert_eq!(ivals.get_interval_containing(i64::MAX - 1), Some((1, i64::MAX)));
    assert!(ivals.get_interval_containing(i64::MAX).is_none());
    ivals.add(-1, 1);
    assert_eq!(ivals.to_vec(), [(i64::MIN, i64::MAX)]);
    assert!(ivals.check_invariants());
}

/// Querying past the last stored start finds nothing.
#[test]
fn first_start_from_past_the_end() {
    let mut ivals = CoalescedIntervals::new();
    ivals.add(-3, 5);
    assert_eq!(ivals.get_first_start_from(-3), Some((-3, 5)));
    assert!(ivals.get_first_start_from(-2).is_none());
    assert!(ivals.get_first_start_from(i64::MAX).is_none());
}

/// A fresh interval swallowing several stored ones replaces them all.
#[test]
fn swallow_many() {
    let mut ivals = CoalescedIntervals::new();
    for (start, limit) in [(0, 1), (2, 3), (4, 5), (6, 7), (8, 9)] {
        ivals.add(start, limit);
    }
    assert_eq!(ivals.to_vec().len(), 5);
    ivals.add(-1, 10);
    assert_eq!(ivals.to_vec(), [(-1, 10)]);
    assert!(ivals.check_invariants());
}
