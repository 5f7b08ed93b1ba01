// The fixed-capacity backing: a bounded store over a heapless vector,
// with a second bounded store as the scratch region.
use ranges_ext::{
    merge_add, merge_contains_point, merge_extend, merge_remove, BoundedStore, Interval,
    RangeEntry, RangeError, StoreOps,
};

fn iv(start: i64, end: i64) -> Interval {
    Interval::new(start, end)
}

fn re(start: i64, end: i64, overwritable: bool) -> RangeEntry {
    RangeEntry::new(Interval::new(start, end), 0, overwritable)
}

fn rk(start: i64, end: i64, kind: u64, overwritable: bool) -> RangeEntry {
    RangeEntry::new(Interval::new(start, end), kind, overwritable)
}

fn add(set: &mut BoundedStore, e: RangeEntry) -> Result<(), RangeError> {
    let mut scratch = BoundedStore::new();
    merge_add(set, &mut scratch, e)
}

fn remove(set: &mut BoundedStore, r: Interval) -> Result<(), RangeError> {
    let mut scratch = BoundedStore::new();
    merge_remove(set, &mut scratch, r)
}

fn entries(set: &BoundedStore) -> Vec<RangeEntry> {
    let mut out = Vec::new();
    let mut i = 0;
    while i < set.count() {
        out.push(set.get_at(i));
        i += 1;
    }
    out
}

#[test]
fn add_merges_overlaps_and_adjacency() {
    let mut set = BoundedStore::new();
    add(&mut set, re(10, 20, true)).unwrap();
    add(&mut set, re(30, 40, true)).unwrap();
    add(&mut set, re(15, 35, true)).unwrap();

    assert_eq!(entries(&set), vec![re(10, 40, true)]);

    let mut set = BoundedStore::new();
    add(&mut set, re(10, 20, true)).unwrap();
    add(&mut set, re(20, 25, true)).unwrap();

    assert_eq!(entries(&set), vec![re(10, 25, true)]);
}

#[test]
fn add_out_of_order_is_normalized() {
    let mut set = BoundedStore::new();

    add(&mut set, re(30, 40, true)).unwrap();
    add(&mut set, re(10, 20, true)).unwrap();
    add(&mut set, re(25, 30, true)).unwrap();
    add(&mut set, re(20, 25, true)).unwrap();

    assert_eq!(entries(&set), vec![re(10, 40, true)]);

    add(&mut set, re(0, 12, true)).unwrap();

    assert_eq!(entries(&set), vec![re(0, 40, true)]);
}

#[test]
fn contains_works() {
    let mut set = BoundedStore::new();
    let mut scratch = BoundedStore::new();
    merge_extend(&mut set, &mut scratch, vec![re(10, 20, true), re(30, 40, true)]).unwrap();

    assert!(merge_contains_point(&set, 10));
    assert!(merge_contains_point(&set, 19));
    assert!(!merge_contains_point(&set, 20));
    assert!(!merge_contains_point(&set, 29));
    assert!(merge_contains_point(&set, 30));
    assert!(!merge_contains_point(&set, 40));
}

#[test]
fn remove_trims_and_splits() {
    let mut set = BoundedStore::new();
    add(&mut set, re(10, 50, true)).unwrap();

    remove(&mut set, iv(20, 30)).unwrap();
    assert_eq!(entries(&set), vec![re(10, 20, true), re(30, 50, true)]);

    remove(&mut set, iv(0, 12)).unwrap();
    assert_eq!(entries(&set), vec![re(12, 20, true), re(30, 50, true)]);

    remove(&mut set, iv(15, 45)).unwrap();
    assert_eq!(entries(&set), vec![re(12, 15, true), re(45, 50, true)]);
}

#[test]
fn remove_noop_on_empty_or_non_overlapping() {
    let mut set = BoundedStore::new();
    remove(&mut set, iv(1, 2)).unwrap();
    assert!(set.count() == 0);

    add(&mut set, re(10, 20, true)).unwrap();
    remove(&mut set, iv(0, 5)).unwrap();

    assert_eq!(entries(&set), vec![re(10, 20, true)]);
}

#[test]
fn capacity_error_on_overflow() {
    // a set that holds at most two elements
    let mut set = BoundedStore::with_limit(2);

    add(&mut set, re(10, 20, true)).unwrap();
    add(&mut set, re(30, 40, true)).unwrap();

    // a third disjoint element does not fit
    assert_eq!(add(&mut set, re(50, 60, true)), Err(RangeError::Capacity));
    // and the first two are untouched
    assert_eq!(entries(&set), vec![re(10, 20, true), re(30, 40, true)]);
}

#[test]
fn only_merge_when_kind_equals() {
    let mut set = BoundedStore::new();

    // adjacent but differently kinded: kept apart
    add(&mut set, rk(10, 20, 1, true)).unwrap();
    add(&mut set, rk(20, 30, 2, true)).unwrap();

    assert_eq!(set.count(), 2);
    assert_eq!(entries(&set), vec![rk(10, 20, 1, true), rk(20, 30, 2, true)]);

    // adjacent and same kind: merged
    add(&mut set, rk(30, 40, 2, true)).unwrap();

    assert_eq!(set.count(), 2);
    assert_eq!(entries(&set), vec![rk(10, 20, 1, true), rk(20, 40, 2, true)]);

    // overlapping and differently kinded: the overlap is carved out
    add(&mut set, rk(15, 25, 3, true)).unwrap();

    assert_eq!(set.count(), 3);
    assert_eq!(
        entries(&set),
        vec![rk(10, 15, 1, true), rk(15, 25, 3, true), rk(25, 40, 2, true)]
    );
}

#[test]
fn conflict_error_on_non_overwritable() {
    let mut set = BoundedStore::new();

    add(&mut set, rk(10, 30, 1, false)).unwrap();

    let result = add(&mut set, rk(20, 40, 2, true));
    assert!(result.is_err());

    if let Err(RangeError::Conflict { new, existing }) = result {
        assert_eq!(new.range(), iv(20, 40));
        assert_eq!(new.kind(), 2);
        assert_eq!(existing.range(), iv(10, 30));
        assert_eq!(existing.kind(), 1);
    } else {
        panic!("Expected ConflictError");
    }

    // the set is unchanged
    assert_eq!(set.count(), 1);
    assert_eq!(entries(&set), vec![rk(10, 30, 1, false)]);
}

#[test]
fn overwritable_ranges_can_be_replaced() {
    let mut set = BoundedStore::new();

    add(&mut set, rk(10, 30, 1, true)).unwrap();

    add(&mut set, rk(20, 40, 2, false)).unwrap();

    assert_eq!(set.count(), 2);
    assert_eq!(entries(&set), vec![rk(10, 20, 1, true), rk(20, 40, 2, false)]);
}
