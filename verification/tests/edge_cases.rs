// Edge cases of the merge and split passes.
use ranges_ext::{merge_add, merge_contains_point, merge_remove, BoundedStore, Interval,
    RangeEntry, RangeError, StoreOps};

fn iv(start: i64, end: i64) -> Interval {
    Interval::new(start, end)
}

fn re(start: i64, end: i64, overwritable: bool) -> RangeEntry {
    RangeEntry::new(Interval::new(start, end), 0, overwritable)
}

fn rk(start: i64, end: i64, kind: u64, overwritable: bool) -> RangeEntry {
    RangeEntry::new(Interval::new(start, end), kind, overwritable)
}

fn add(set: &mut BoundedStore, e: RangeEntry) -> Result<(), RangeError> {
    let mut scratch = BoundedStore::new();
    merge_add(set, &mut scratch, e)
}

fn remove(set: &mut BoundedStore, r: Interval) -> Result<(), RangeError> {
    let mut scratch = BoundedStore::new();
    merge_remove(set, &mut scratch, r)
}

#[test]
fn test_merge_complex_scenarios() {
    // a new element that bridges several same-kinded elements while a
    // differently-kinded one loses its overlap
    let mut set = BoundedStore::new();

    add(&mut set, rk(0, 5, 1, true)).unwrap();
    add(&mut set, rk(10, 15, 1, true)).unwrap();
    add(&mut set, rk(20, 25, 2, true)).unwrap();

    add(&mut set, rk(3, 22, 1, true)).unwrap();

    assert_eq!(set.count(), 2);
    assert_eq!(set.get_at(0).range(), iv(0, 22));
    assert_eq!(set.get_at(0).kind(), 1);
    assert_eq!(set.get_at(1).range(), iv(22, 25));
    assert_eq!(set.get_at(1).kind(), 2);
}

#[test]
fn test_remove_split_edge_case() {
    let mut set = BoundedStore::new();

    add(&mut set, re(0, 10, true)).unwrap();

    // removing a single interior point splits the element
    remove(&mut set, iv(5, 6)).unwrap();

    assert_eq!(set.count(), 2);
    assert_eq!(set.get_at(0).range(), iv(0, 5));
    assert_eq!(set.get_at(1).range(), iv(6, 10));

    // removing the whole left half
    remove(&mut set, iv(0, 5)).unwrap();

    assert_eq!(set.count(), 1);
    assert_eq!(set.get_at(0).range(), iv(6, 10));
}

#[test]
fn test_capacity_overflow_simple() {
    let mut set = BoundedStore::with_limit(2);

    add(&mut set, re(0, 5, true)).unwrap();
    add(&mut set, re(10, 15, true)).unwrap();
    assert_eq!(set.count(), 2);

    // a third disjoint element does not fit
    let result = add(&mut set, re(20, 25, true));
    assert!(result.is_err());
    assert_eq!(result.unwrap_err(), RangeError::Capacity);
}

#[test]
fn test_contains_binary_search_edge() {
    let mut set = BoundedStore::new();

    add(&mut set, re(10, 20, true)).unwrap();
    add(&mut set, re(30, 40, true)).unwrap();

    assert!(merge_contains_point(&set, 10));
    assert!(merge_contains_point(&set, 19));
    assert!(!merge_contains_point(&set, 20));
    assert!(!merge_contains_point(&set, 29));
    assert!(merge_contains_point(&set, 30));
    assert!(!merge_contains_point(&set, 40));

    assert!(!merge_contains_point(&set, i32::MIN as i64));
    assert!(!merge_contains_point(&set, i32::MAX as i64));
}

#[test]
fn test_adjacent_but_different_kind() {
    let mut set = BoundedStore::new();

    add(&mut set, rk(0, 5, 1, true)).unwrap();
    add(&mut set, rk(5, 10, 2, true)).unwrap();
    add(&mut set, rk(10, 15, 2, true)).unwrap();

    assert_eq!(set.count(), 2);
    assert_eq!(set.get_at(0).range(), iv(0, 5));
    assert_eq!(set.get_at(1).range(), iv(5, 15));
}
