// The growable-backing engine: a plain vector as the store, another as
// the scratch region.
use ranges_ext::{
    merge_add, merge_contains_point, merge_extend, merge_remove, Interval, RangeEntry,
};

fn iv(start: i64, end: i64) -> Interval {
    Interval::new(start, end)
}

fn re(start: i64, end: i64, overwritable: bool) -> RangeEntry {
    RangeEntry::new(Interval::new(start, end), 0, overwritable)
}

fn add(set: &mut Vec<RangeEntry>, e: RangeEntry) -> Result<(), ranges_ext::RangeError> {
    let mut scratch: Vec<RangeEntry> = Vec::new();
    merge_add(set, &mut scratch, e)
}

fn remove(set: &mut Vec<RangeEntry>, r: Interval) -> Result<(), ranges_ext::RangeError> {
    let mut scratch: Vec<RangeEntry> = Vec::new();
    merge_remove(set, &mut scratch, r)
}

#[test]
fn alloc_add_merges_overlaps_and_adjacency() {
    let mut set: Vec<RangeEntry> = Vec::new();
    add(&mut set, re(10, 20, true)).unwrap();
    add(&mut set, re(30, 40, true)).unwrap();
    add(&mut set, re(15, 35, true)).unwrap();

    assert_eq!(set, vec![re(10, 40, true)]);

    // touching ranges also merge ([10,20) + [20,25) => [10,25))
    set.clear();
    add(&mut set, re(10, 20, true)).unwrap();
    add(&mut set, re(20, 25, true)).unwrap();

    assert_eq!(set, vec![re(10, 25, true)]);
}

#[test]
fn alloc_add_out_of_order_is_normalized() {
    let mut set: Vec<RangeEntry> = Vec::new();

    add(&mut set, re(30, 40, true)).unwrap();
    add(&mut set, re(10, 20, true)).unwrap();
    add(&mut set, re(25, 30, true)).unwrap();
    add(&mut set, re(20, 25, true)).unwrap();

    assert_eq!(set, vec![re(10, 40, true)]);

    add(&mut set, re(0, 12, true)).unwrap();

    assert_eq!(set, vec![re(0, 40, true)]);
}

#[test]
fn alloc_contains_works() {
    let mut set: Vec<RangeEntry> = Vec::new();
    let mut scratch: Vec<RangeEntry> = Vec::new();
    merge_extend(&mut set, &mut scratch, vec![re(10, 20, true), re(30, 40, true)]).unwrap();

    assert!(merge_contains_point(&set, 10));
    assert!(merge_contains_point(&set, 19));
    assert!(!merge_contains_point(&set, 20));
    assert!(!merge_contains_point(&set, 29));
    assert!(merge_contains_point(&set, 30));
    assert!(!merge_contains_point(&set, 40));
}

#[test]
fn alloc_remove_trims_and_splits() {
    let mut set: Vec<RangeEntry> = Vec::new();
    add(&mut set, re(10, 50, true)).unwrap();

    remove(&mut set, iv(20, 30)).unwrap();
    assert_eq!(set, vec![re(10, 20, true), re(30, 50, true)]);

    remove(&mut set, iv(0, 12)).unwrap();
    assert_eq!(set, vec![re(12, 20, true), re(30, 50, true)]);

    remove(&mut set, iv(15, 45)).unwrap();
    assert_eq!(set, vec![re(12, 15, true), re(45, 50, true)]);
}

#[test]
fn alloc_remove_noop_on_empty_or_non_overlapping() {
    let mut set: Vec<RangeEntry> = Vec::new();
    remove(&mut set, iv(1, 2)).unwrap();
    assert!(set.is_empty());

    add(&mut set, re(10, 20, true)).unwrap();
    remove(&mut set, iv(0, 10)).unwrap();
    assert_eq!(set, vec![re(10, 20, true)]);
}

#[test]
fn alloc_multiple_non_overlapping() {
    let mut set: Vec<RangeEntry> = Vec::new();
    add(&mut set, re(10, 20, true)).unwrap();
    add(&mut set, re(30, 40, true)).unwrap();
    add(&mut set, re(50, 60, true)).unwrap();

    assert_eq!(set, vec![re(10, 20, true), re(30, 40, true), re(50, 60, true)]);
}

#[test]
fn alloc_extend_merges_correctly() {
    let mut set: Vec<RangeEntry> = Vec::new();
    let mut scratch: Vec<RangeEntry> = Vec::new();
    merge_extend(
        &mut set,
        &mut scratch,
        vec![re(10, 20, true), re(15, 25, true), re(30, 40, true)],
    )
    .unwrap();

    assert_eq!(set, vec![re(10, 25, true), re(30, 40, true)]);
}

#[test]
fn alloc_remove_entire_range() {
    let mut set: Vec<RangeEntry> = Vec::new();
    add(&mut set, re(10, 50, true)).unwrap();
    remove(&mut set, iv(10, 50)).unwrap();
    assert!(set.is_empty());
}

#[test]
fn alloc_remove_partial_left() {
    let mut set: Vec<RangeEntry> = Vec::new();
    add(&mut set, re(10, 50, true)).unwrap();
    remove(&mut set, iv(10, 30)).unwrap();

    assert_eq!(set, vec![re(30, 50, true)]);
}

#[test]
fn alloc_remove_partial_right() {
    let mut set: Vec<RangeEntry> = Vec::new();
    add(&mut set, re(10, 50, true)).unwrap();
    remove(&mut set, iv(30, 50)).unwrap();

    assert_eq!(set, vec![re(10, 30, true)]);
}

#[test]
fn alloc_large_scale_operations() {
    let mut set: Vec<RangeEntry> = Vec::new();

    for i in 0..10 {
        add(&mut set, re(i * 100, i * 100 + 50, true)).unwrap();
    }
    assert_eq!(set.len(), 10);

    add(&mut set, re(0, 1000, true)).unwrap();
    assert_eq!(set.len(), 1);
    assert_eq!(set[0].range, iv(0, 1000));
}

#[test]
fn alloc_boundary_conditions() {
    let mut set: Vec<RangeEntry> = Vec::new();

    // empty interval: a silent no-op
    add(&mut set, re(10, 10, true)).unwrap();
    assert!(set.is_empty());

    // a single-point interval
    add(&mut set, re(10, 11, true)).unwrap();
    assert_eq!(set, vec![re(10, 11, true)]);

    // touching intervals merge
    add(&mut set, re(11, 12, true)).unwrap();
    assert_eq!(set, vec![re(10, 12, true)]);
}

#[test]
fn alloc_negative_ranges() {
    let mut set: Vec<RangeEntry> = Vec::new();
    add(&mut set, re(-50, -10, true)).unwrap();
    add(&mut set, re(-20, 0, true)).unwrap();

    assert_eq!(set, vec![re(-50, 0, true)]);

    assert!(merge_contains_point(&set, -25));
    assert!(!merge_contains_point(&set, -60));
    assert!(!merge_contains_point(&set, 10));
}
