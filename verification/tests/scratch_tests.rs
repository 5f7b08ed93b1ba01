// The caller-supplied scratch region (a slice-backed vector over plain
// memory), the geometry helpers, and the search functions.
use ranges_ext::{
    check_conflicts, find_insert_position, merge_add, merge_remove, ranges_overlap, split_range,
    validate_range, BoundedStore, Interval, RangeEntry, RangeError, SliceStore, StoreOps,
};

fn iv(start: i64, end: i64) -> Interval {
    Interval::new(start, end)
}

fn re(start: i64, end: i64, overwritable: bool) -> RangeEntry {
    RangeEntry::new(Interval::new(start, end), 0, overwritable)
}

fn rk(start: i64, end: i64, kind: u64, overwritable: bool) -> RangeEntry {
    RangeEntry::new(Interval::new(start, end), kind, overwritable)
}

#[test]
fn slice_scratch_backs_the_engine() {
    // a reusable buffer of plain memory serves as the staging area
    let mut buf = [RangeEntry::default(); 32];
    let mut set: Vec<RangeEntry> = Vec::new();

    let mut scratch = SliceStore::from_buffer(&mut buf);
    merge_add(&mut set, &mut scratch, re(10, 20, true)).unwrap();
    let mut scratch = SliceStore::from_buffer(&mut buf);
    merge_add(&mut set, &mut scratch, re(30, 40, true)).unwrap();
    let mut scratch = SliceStore::from_buffer(&mut buf);
    merge_add(&mut set, &mut scratch, re(15, 35, true)).unwrap();

    assert_eq!(set, vec![re(10, 40, true)]);

    let mut scratch = SliceStore::from_buffer(&mut buf);
    merge_remove(&mut set, &mut scratch, iv(20, 30)).unwrap();
    assert_eq!(set, vec![re(10, 20, true), re(30, 40, true)]);
}

#[test]
fn slice_scratch_too_small_fails_cleanly() {
    // a deletion that splits needs room for one extra element; a buffer of
    // one cannot stage two
    let mut set: Vec<RangeEntry> = Vec::new();
    let mut big = [RangeEntry::default(); 8];
    let mut scratch = SliceStore::from_buffer(&mut big);
    merge_add(&mut set, &mut scratch, re(10, 50, true)).unwrap();

    let mut tiny = [RangeEntry::default(); 1];
    let mut scratch = SliceStore::from_buffer(&mut tiny);
    let result = merge_remove(&mut set, &mut scratch, iv(20, 30));
    assert_eq!(result, Err(RangeError::Capacity));
    // the store is untouched on a capacity error
    assert_eq!(set, vec![re(10, 50, true)]);
}

#[test]
fn bounded_store_with_slice_scratch() {
    let mut buf = [RangeEntry::default(); 20];
    let mut set = BoundedStore::with_limit(2);

    let mut scratch = SliceStore::from_buffer(&mut buf);
    merge_add(&mut set, &mut scratch, re(0, 5, true)).unwrap();
    let mut scratch = SliceStore::from_buffer(&mut buf);
    merge_add(&mut set, &mut scratch, re(10, 15, true)).unwrap();
    let mut scratch = SliceStore::from_buffer(&mut buf);
    assert_eq!(merge_add(&mut set, &mut scratch, re(20, 25, true)), Err(RangeError::Capacity));

    // merging into an existing element still fits
    let mut scratch = SliceStore::from_buffer(&mut buf);
    merge_add(&mut set, &mut scratch, re(5, 12, true)).unwrap();
    assert_eq!(set.count(), 1);
    assert_eq!(set.get_at(0).range(), iv(0, 15));
}

#[test]
fn geometry_validate_and_overlap() {
    assert!(validate_range(&re(1, 2, true)));
    assert!(!validate_range(&re(2, 2, true)));
    assert!(!validate_range(&re(3, 2, true)));

    assert!(ranges_overlap(&iv(0, 10), &iv(9, 12)));
    assert!(ranges_overlap(&iv(9, 12), &iv(0, 10)));
    assert!(!ranges_overlap(&iv(0, 10), &iv(10, 12)));
    assert!(!ranges_overlap(&iv(10, 12), &iv(0, 10)));
}

#[test]
fn geometry_split_range_cases() {
    let e = rk(10, 50, 3, true);

    // interior deletion: both remainders survive, kind and flag kept
    let (l, r) = split_range(&e, &iv(20, 30));
    assert_eq!(l, Some(rk(10, 20, 3, true)));
    assert_eq!(r, Some(rk(30, 50, 3, true)));

    // covering the left edge
    let (l, r) = split_range(&e, &iv(0, 30));
    assert_eq!(l, None);
    assert_eq!(r, Some(rk(30, 50, 3, true)));

    // covering the right edge
    let (l, r) = split_range(&e, &iv(30, 60));
    assert_eq!(l, Some(rk(10, 30, 3, true)));
    assert_eq!(r, None);

    // swallowed entirely
    let (l, r) = split_range(&e, &iv(0, 60));
    assert_eq!(l, None);
    assert_eq!(r, None);
}

#[test]
fn search_helpers_work() {
    let set: Vec<RangeEntry> = vec![rk(0, 5, 1, true), rk(10, 15, 2, false), rk(20, 25, 1, true)];

    assert_eq!(find_insert_position(&set, &iv(0, 1)), 0);
    assert_eq!(find_insert_position(&set, &iv(7, 9)), 1);
    assert_eq!(find_insert_position(&set, &iv(10, 12)), 1);
    assert_eq!(find_insert_position(&set, &iv(30, 31)), 3);

    // the conflict scan reports the first blocking element
    let result = check_conflicts(&set, &rk(3, 12, 3, true));
    if let Err(RangeError::Conflict { new, existing }) = result {
        assert_eq!(new, rk(3, 12, 3, true));
        assert_eq!(existing, rk(10, 15, 2, false));
    } else {
        panic!("Expected a conflict");
    }

    // same kind never conflicts; overwritable elements do not block
    assert!(check_conflicts(&set, &rk(12, 14, 2, true)).is_ok());
    assert!(check_conflicts(&set, &rk(3, 4, 9, true)).is_ok());
}

#[test]
fn conflict_scan_is_a_dry_run() {
    // the conflict is found before any mutation: the set is byte-identical
    let mut set: Vec<RangeEntry> = Vec::new();
    let mut scratch: Vec<RangeEntry> = Vec::new();
    merge_add(&mut set, &mut scratch, rk(10, 20, 1, true)).unwrap();
    merge_add(&mut set, &mut scratch, rk(30, 40, 2, false)).unwrap();

    let before = set.clone();
    let result = merge_add(&mut set, &mut scratch, rk(15, 35, 3, true));
    assert!(matches!(result, Err(RangeError::Conflict { .. })));
    assert_eq!(set, before);
}
