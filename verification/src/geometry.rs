use vstd::prelude::*;

verus! {

/// A half-open interval `[start, end)` over `i64` coordinates.
/// It holds a point `p` when `start <= p < end`; it is empty when `start >= end`.
#[derive(Clone, Copy, PartialEq, Eq, Structural, Debug, Default)]
pub struct Interval {
    pub start: i64,
    pub end: i64,
}

/// One stored element: a half-open interval together with an
/// equality-comparable kind tag and the flag that lets a
/// differently-kinded incoming range overwrite its overlap.
#[derive(Clone, Copy, PartialEq, Eq, Structural, Debug, Default)]
pub struct RangeEntry {
    pub range: Interval,
    pub kind: u64,
    pub overwritable: bool,
}

/// The two ways a mutation can fail: the fixed backing is full, or the
/// incoming range collides with a non-overwritable element of another kind.
#[derive(Clone, Copy, PartialEq, Eq, Structural, Debug)]
pub enum RangeError {
    Capacity,
    Conflict { new: RangeEntry, existing: RangeEntry },
}

impl Interval {
    pub fn new(start: i64, end: i64) -> (r: Interval)
        ensures
            r == (Interval { start, end }),
    {
        Interval { start, end }
    }
}

impl RangeEntry {
    pub fn new(range: Interval, kind: u64, overwritable: bool) -> (r: RangeEntry)
        ensures
            r == (RangeEntry { range, kind, overwritable }),
    {
        RangeEntry { range, kind, overwritable }
    }

    pub fn range(&self) -> (r: Interval)
        ensures
            r == self.range,
    {
        self.range
    }

    pub fn kind(&self) -> (k: u64)
        ensures
            k == self.kind,
    {
        self.kind
    }

    pub fn overwritable(&self) -> (w: bool)
        ensures
            w == self.overwritable,
    {
        self.overwritable
    }

    /// A copy of the element with a different interval and identical
    /// kind and overwritable flag.
    pub fn clone_with_range(&self, range: Interval) -> (r: RangeEntry)
        ensures
            r == (RangeEntry { range, kind: self.kind, overwritable: self.overwritable }),
    {
        RangeEntry { range, kind: self.kind, overwritable: self.overwritable }
    }
}

/// An interval is valid (non-empty, not inverted) when it holds some point.
pub open spec fn ival_valid(iv: Interval) -> bool {
    iv.start < iv.end
}

/// Two intervals overlap when some point lies in both.
pub open spec fn overlap(a: Interval, b: Interval) -> bool {
    a.start < b.end && b.start < a.end
}

pub open spec fn imin(a: i64, b: i64) -> i64 {
    if a <= b {
        a
    } else {
        b
    }
}

pub open spec fn imax(a: i64, b: i64) -> i64 {
    if a <= b {
        b
    } else {
        a
    }
}

/// The part of `e` that survives to the left of `r`, if any.
pub open spec fn left_part(e: RangeEntry, r: Interval) -> Option<RangeEntry> {
    let l = Interval { start: e.range.start, end: imin(e.range.end, r.start) };
    if ival_valid(l) {
        Some(RangeEntry { range: l, kind: e.kind, overwritable: e.overwritable })
    } else {
        None
    }
}

/// The part of `e` that survives to the right of `r`, if any.
pub open spec fn right_part(e: RangeEntry, r: Interval) -> Option<RangeEntry> {
    let t = Interval { start: imax(e.range.start, r.end), end: e.range.end };
    if ival_valid(t) {
        Some(RangeEntry { range: t, kind: e.kind, overwritable: e.overwritable })
    } else {
        None
    }
}

pub open spec fn opt_seq(o: Option<RangeEntry>) -> Seq<RangeEntry> {
    match o {
        Some(e) => seq![e],
        None => Seq::empty(),
    }
}

/// Subtracting `r` from `e`: the 0, 1 or 2 remainder elements, in order.
/// When `e` and `r` are disjoint and `r` is valid this is just `[e]`.
pub open spec fn subtract(e: RangeEntry, r: Interval) -> Seq<RangeEntry> {
    opt_seq(left_part(e, r)) + opt_seq(right_part(e, r))
}

/// A stored element is kept only when its interval is non-empty.
pub fn validate_range(info: &RangeEntry) -> (r: bool)
    ensures
        r == ival_valid(info.range),
{
    info.range.start < info.range.end
}

/// Whether two intervals share at least one point.
pub fn ranges_overlap(r1: &Interval, r2: &Interval) -> (r: bool)
    ensures
        r == overlap(*r1, *r2),
{
    !(r1.end <= r2.start || r1.start >= r2.end)
}

/// Split `elem` against `split`: the surviving left and/or right
/// remainders of its interval, cloned with kind and flag preserved.
pub fn split_range(elem: &RangeEntry, split: &Interval) -> (r: (Option<RangeEntry>, Option<
    RangeEntry,
>))
    ensures
        r.0 == left_part(*elem, *split),
        r.1 == right_part(*elem, *split),
{
    let er = elem.range;
    let has_left = er.start < split.start;
    let has_right = er.end > split.end;
    let left = if has_left {
        let lend = if er.end <= split.start {
            er.end
        } else {
            split.start
        };
        let l = Interval { start: er.start, end: lend };
        if l.start < l.end {
            Some(elem.clone_with_range(l))
        } else {
            None
        }
    } else {
        None
    };
    let right = if has_right {
        let rstart = if er.start <= split.end {
            split.end
        } else {
            er.start
        };
        let t = Interval { start: rstart, end: er.end };
        if t.start < t.end {
            Some(elem.clone_with_range(t))
        } else {
            None
        }
    } else {
        None
    };
    (left, right)
}

} // verus!
