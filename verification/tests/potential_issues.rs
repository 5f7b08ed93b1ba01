// Behaviour under extreme values, reuse, and batch errors, on the
// fixed-capacity backing.
use ranges_ext::{merge_add, merge_contains_point, merge_extend, merge_remove, BoundedStore,
    Interval, RangeEntry, RangeError, StoreOps};

fn iv(start: i64, end: i64) -> Interval {
    Interval::new(start, end)
}

fn re(start: i64, end: i64, overwritable: bool) -> RangeEntry {
    RangeEntry::new(Interval::new(start, end), 0, overwritable)
}

fn rk(start: i64, end: i64, kind: u64, overwritable: bool) -> RangeEntry {
    RangeEntry::new(Interval::new(start, end), kind, overwritable)
}

fn add(set: &mut BoundedStore, e: RangeEntry) -> Result<(), RangeError> {
    let mut scratch = BoundedStore::new();
    merge_add(set, &mut scratch, e)
}

fn remove(set: &mut BoundedStore, r: Interval) -> Result<(), RangeError> {
    let mut scratch = BoundedStore::new();
    merge_remove(set, &mut scratch, r)
}

#[test]
fn test_large_range_operations() {
    // values near the top of the unsigned 32-bit range
    let mut set = BoundedStore::new();

    let umax = u32::MAX as i64;
    let max_val = umax - 10;
    add(&mut set, re(max_val, umax, true)).unwrap();
    assert_eq!(set.count(), 1);

    assert!(merge_contains_point(&set, max_val));
    assert!(merge_contains_point(&set, umax - 1));
    assert!(!merge_contains_point(&set, umax));
}

#[test]
fn test_remove_empty_set() {
    let mut set = BoundedStore::new();

    // removing from an empty set is a no-op
    let result = remove(&mut set, iv(0, 10));
    assert!(result.is_ok());
    assert!(set.count() == 0);

    // removing an inverted interval is a no-op too
    let result = remove(&mut set, iv(10, 0));
    assert!(result.is_ok());
    assert!(set.count() == 0);
}

#[test]
fn test_identical_ranges() {
    let mut set = BoundedStore::new();

    add(&mut set, rk(0, 10, 1, true)).unwrap();
    assert_eq!(set.count(), 1);

    // the same element again: merged into one
    add(&mut set, rk(0, 10, 1, true)).unwrap();
    assert_eq!(set.count(), 1);
    assert_eq!(set.get_at(0).range(), iv(0, 10));

    // the same interval with another kind replaces the overwritable one
    add(&mut set, rk(0, 10, 2, true)).unwrap();
    assert_eq!(set.count(), 1);
    assert_eq!(set.get_at(0).range(), iv(0, 10));
    assert_eq!(set.get_at(0).kind(), 2);
}

#[test]
fn test_extend_with_errors() {
    let mut set = BoundedStore::with_limit(2);
    let mut scratch = BoundedStore::new();

    merge_add(&mut set, &mut scratch, re(0, 5, true)).unwrap();

    // the first element fits, the second overflows the capacity
    let ranges = vec![re(10, 15, true), re(20, 25, true)];

    let result = merge_extend(&mut set, &mut scratch, ranges);
    assert!(result.is_err());
    assert_eq!(result.unwrap_err(), RangeError::Capacity);

    // the element before the error stays committed
    assert_eq!(set.count(), 2);

    // the element after it was never added
    let mut found = false;
    let mut i = 0;
    while i < set.count() {
        if set.get_at(i).range().start == 20 {
            found = true;
        }
        i += 1;
    }
    assert!(!found);
}

#[test]
fn test_iteration_order() {
    let mut set = BoundedStore::new();

    add(&mut set, re(30, 40, true)).unwrap();
    add(&mut set, re(10, 20, true)).unwrap();
    add(&mut set, re(0, 5, true)).unwrap();

    // elements come out sorted and disjoint
    let mut last_end: Option<i64> = None;
    let mut i = 0;
    while i < set.count() {
        let e = set.get_at(i);
        if let Some(end) = last_end {
            assert!(e.range().start >= end);
        }
        last_end = Some(e.range().end);
        i += 1;
    }
}

#[test]
fn test_clear_and_reuse() {
    let mut set = BoundedStore::new();

    add(&mut set, rk(0, 10, 1, true)).unwrap();
    add(&mut set, rk(20, 30, 2, true)).unwrap();
    assert_eq!(set.count(), 2);

    set.reset();
    assert!(set.count() == 0);

    add(&mut set, rk(5, 15, 3, true)).unwrap();
    assert_eq!(set.count(), 1);
    assert_eq!(set.get_at(0).range(), iv(5, 15));
}
