// The metadata-tracking set: merged intervals that remember the original
// sub-ranges they absorbed.
use ranges_ext::{Interval, OriginalRange, RangeSet};

fn iv(start: i64, end: i64) -> Interval {
    Interval::new(start, end)
}

#[test]
fn rangeset_add_merges_and_tracks_originals() {
    let mut set = RangeSet::new();
    set.add(iv(10, 20), 1);
    set.add(iv(30, 40), 2);
    set.add(iv(15, 35), 3);

    assert_eq!(set.len(), 1);
    assert_eq!(set.as_slice(), vec![iv(10, 40)]);

    let els = set.elements();
    assert_eq!(els[0].merged, iv(10, 40));
    assert_eq!(
        els[0].originals,
        vec![
            OriginalRange { range: iv(10, 20), meta: 1 },
            OriginalRange { range: iv(15, 35), meta: 3 },
            OriginalRange { range: iv(30, 40), meta: 2 },
        ]
    );
}

#[test]
fn rangeset_originals_of_equal_meta_coalesce() {
    let mut set = RangeSet::new();
    set.add(iv(10, 20), 7);
    set.add(iv(15, 30), 7);

    assert_eq!(set.as_slice(), vec![iv(10, 30)]);
    let els = set.elements();
    assert_eq!(els[0].originals, vec![OriginalRange { range: iv(10, 30), meta: 7 }]);

    // a touching range of another metadata stays a separate original
    set.add(iv(30, 40), 9);
    let els = set.elements();
    assert_eq!(set.as_slice(), vec![iv(10, 40)]);
    assert_eq!(
        els[0].originals,
        vec![
            OriginalRange { range: iv(10, 30), meta: 7 },
            OriginalRange { range: iv(30, 40), meta: 9 },
        ]
    );
}

#[test]
fn rangeset_add_out_of_order_is_normalized() {
    let mut set = RangeSet::new();
    set.add_range(iv(30, 40));
    set.add_range(iv(10, 20));
    set.add_range(iv(25, 30));
    set.add_range(iv(20, 25));

    assert_eq!(set.as_slice(), vec![iv(10, 40)]);

    set.add_range(iv(0, 12));
    assert_eq!(set.as_slice(), vec![iv(0, 40)]);
}

#[test]
fn rangeset_permutations_agree() {
    // any insertion order of mutually compatible ranges gives one result
    let perms: Vec<Vec<Interval>> = vec![
        vec![iv(10, 20), iv(30, 40), iv(15, 35)],
        vec![iv(10, 20), iv(15, 35), iv(30, 40)],
        vec![iv(30, 40), iv(10, 20), iv(15, 35)],
        vec![iv(30, 40), iv(15, 35), iv(10, 20)],
        vec![iv(15, 35), iv(10, 20), iv(30, 40)],
        vec![iv(15, 35), iv(30, 40), iv(10, 20)],
    ];
    for p in perms {
        let mut set = RangeSet::new();
        set.extend(p);
        assert_eq!(set.as_slice(), vec![iv(10, 40)]);
    }
}

#[test]
fn rangeset_add_twice_is_once() {
    let mut once = RangeSet::new();
    once.add(iv(10, 20), 5);

    let mut twice = RangeSet::new();
    twice.add(iv(10, 20), 5);
    twice.add(iv(10, 20), 5);

    assert_eq!(once.as_slice(), twice.as_slice());
    assert_eq!(once.elements()[0].originals, twice.elements()[0].originals);
    assert_eq!(twice.len(), 1);
}

#[test]
fn rangeset_contains_works() {
    let mut set = RangeSet::new();
    set.extend(vec![iv(10, 20), iv(30, 40)]);

    assert!(set.contains(10));
    assert!(set.contains(19));
    assert!(!set.contains(20));
    assert!(!set.contains(29));
    assert!(set.contains(30));
    assert!(!set.contains(40));
}

#[test]
fn rangeset_remove_trims_and_splits() {
    let mut set = RangeSet::new();
    set.add_range(iv(10, 50));

    set.remove_range(iv(20, 30));
    assert_eq!(set.as_slice(), vec![iv(10, 20), iv(30, 50)]);

    set.remove_range(iv(0, 12));
    assert_eq!(set.as_slice(), vec![iv(12, 20), iv(30, 50)]);

    set.remove_range(iv(15, 45));
    assert_eq!(set.as_slice(), vec![iv(12, 15), iv(45, 50)]);
}

#[test]
fn rangeset_remove_drops_contained_originals() {
    let mut set = RangeSet::new();
    set.add(iv(0, 10), 1);
    set.add(iv(10, 20), 2);
    assert_eq!(set.as_slice(), vec![iv(0, 20)]);

    // the deleted interval swallows the second original entirely
    set.remove_range(iv(10, 20));
    assert_eq!(set.as_slice(), vec![iv(0, 10)]);
    assert_eq!(set.elements()[0].originals, vec![OriginalRange { range: iv(0, 10), meta: 1 }]);

    // an element whose originals all vanish disappears with them
    set.remove_range(iv(0, 10));
    assert!(set.is_empty());
}

#[test]
fn rangeset_remove_keeps_partial_originals_verbatim() {
    let mut set = RangeSet::new();
    set.add(iv(0, 30), 1);

    // the split trims the merged interval but keeps the partially
    // overlapping original untouched on both sides
    set.remove_range(iv(10, 20));
    assert_eq!(set.as_slice(), vec![iv(0, 10), iv(20, 30)]);
    let els = set.elements();
    assert_eq!(els[0].originals, vec![OriginalRange { range: iv(0, 30), meta: 1 }]);
    assert_eq!(els[1].originals, vec![OriginalRange { range: iv(0, 30), meta: 1 }]);
}

#[test]
fn rangeset_empty_and_inverted_are_noops() {
    let mut set = RangeSet::new();
    set.add_range(iv(10, 10));
    set.add_range(iv(20, 10));
    assert!(set.is_empty());

    set.add_range(iv(10, 20));
    set.remove_range(iv(5, 5));
    set.remove_range(iv(30, 20));
    assert_eq!(set.as_slice(), vec![iv(10, 20)]);
}

#[test]
fn rangeset_clear_and_iter() {
    let mut set = RangeSet::new();
    set.add_range(iv(30, 40));
    set.add_range(iv(10, 20));
    assert_eq!(set.iter(), vec![iv(10, 20), iv(30, 40)]);
    assert_eq!(set.len(), 2);
    assert!(!set.is_empty());

    set.clear();
    assert!(set.is_empty());
    assert_eq!(set.len(), 0);

    set.add_range(iv(5, 15));
    assert_eq!(set.as_slice(), vec![iv(5, 15)]);
}
