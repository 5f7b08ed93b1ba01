// Boundary behaviour of the fixed-capacity engine.
use ranges_ext::{merge_add, merge_contains_point, merge_remove, BoundedStore, Interval,
    RangeEntry, RangeError, StoreOps};

fn iv(start: i64, end: i64) -> Interval {
    Interval::new(start, end)
}

fn re(start: i64, end: i64, overwritable: bool) -> RangeEntry {
    RangeEntry::new(Interval::new(start, end), 0, overwritable)
}

fn rk(start: i64, end: i64, kind: u64, overwritable: bool) -> RangeEntry {
    RangeEntry::new(Interval::new(start, end), kind, overwritable)
}

fn add(set: &mut BoundedStore, e: RangeEntry) -> Result<(), RangeError> {
    let mut scratch = BoundedStore::new();
    merge_add(set, &mut scratch, e)
}

fn remove(set: &mut BoundedStore, r: Interval) -> Result<(), RangeError> {
    let mut scratch = BoundedStore::new();
    merge_remove(set, &mut scratch, r)
}

fn ival_at(set: &BoundedStore, i: usize) -> Interval {
    set.get_at(i).range()
}

#[test]
fn test_empty_range_handling() {
    let mut set = BoundedStore::new();

    // an empty interval is ignored
    let result = add(&mut set, re(10, 10, true));
    assert!(result.is_ok());
    assert!(set.count() == 0);

    // an inverted interval (start > end) is ignored
    let result = add(&mut set, re(20, 10, true));
    assert!(result.is_ok());
    assert!(set.count() == 0);

    // removing an empty interval is a no-op
    let result = remove(&mut set, iv(10, 10));
    assert!(result.is_ok());

    // removing an inverted interval is a no-op
    let result = remove(&mut set, iv(20, 10));
    assert!(result.is_ok());
}

#[test]
fn test_boundary_overlap() {
    let mut set = BoundedStore::new();

    // touching, same kind: merged
    add(&mut set, rk(0, 5, 1, true)).unwrap();
    add(&mut set, rk(5, 10, 1, true)).unwrap();
    // another kind: kept apart
    add(&mut set, rk(10, 15, 2, true)).unwrap();

    assert_eq!(set.count(), 2);
    assert_eq!(ival_at(&set, 0), iv(0, 10));
    assert_eq!(ival_at(&set, 1), iv(10, 15));

    // with a gap: not merged
    let mut set = BoundedStore::new();
    add(&mut set, rk(0, 5, 1, true)).unwrap();
    add(&mut set, rk(7, 10, 1, true)).unwrap();

    assert_eq!(set.count(), 2);
    assert_eq!(ival_at(&set, 0), iv(0, 5));
    assert_eq!(ival_at(&set, 1), iv(7, 10));
}

#[test]
fn test_single_point_ranges() {
    let mut set = BoundedStore::new();

    // single-point intervals, touching: merged
    add(&mut set, re(5, 6, true)).unwrap();
    add(&mut set, re(6, 7, true)).unwrap();

    assert_eq!(set.count(), 1);
    assert_eq!(ival_at(&set, 0), iv(5, 7));

    // removing an empty interval is a no-op
    remove(&mut set, iv(6, 6)).unwrap();
    assert_eq!(set.count(), 1);

    // removing the first point
    remove(&mut set, iv(5, 6)).unwrap();
    assert_eq!(set.count(), 1);
    assert_eq!(ival_at(&set, 0), iv(6, 7));
}

#[test]
fn test_extreme_values() {
    let mut set = BoundedStore::new();

    let min = i32::MIN as i64;
    let max = i32::MAX as i64;
    set_extremes(&mut set, min, max);
    assert_eq!(set.count(), 1);

    // adding the same span again changes nothing
    set_extremes(&mut set, min, max);
    assert_eq!(set.count(), 1);

    assert!(merge_contains_point(&set, min));
    assert!(merge_contains_point(&set, max - 1));
    assert!(!merge_contains_point(&set, max));
}

fn set_extremes(set: &mut BoundedStore, min: i64, max: i64) {
    let mut scratch = BoundedStore::new();
    merge_add(set, &mut scratch, re(min, max, true)).unwrap();
}
