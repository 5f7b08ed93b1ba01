use vstd::prelude::*;

use crate::geometry::{
    ival_valid, imax, imin, left_part, opt_seq, overlap, right_part, subtract, Interval,
    RangeEntry,
};

verus! {

// ---------------------------------------------------------------------------
// Well-formedness of a stored sequence
// ---------------------------------------------------------------------------

/// Sorted, mutually disjoint, every interval non-empty.
pub open spec fn part_wf(s: Seq<RangeEntry>) -> bool {
    &&& forall|i: int| 0 <= i < s.len() ==> ival_valid((#[trigger] s[i]).range)
    &&& forall|i: int|
        0 <= i < s.len() - 1 ==> (#[trigger] s[i]).range.end <= s[i + 1].range.start
}

/// The full invariant: additionally no two coordinate-adjacent elements
/// share a kind (they would have been merged).
pub open spec fn seq_wf(s: Seq<RangeEntry>) -> bool {
    &&& part_wf(s)
    &&& forall|i: int|
        0 <= i < s.len() - 1 && (#[trigger] s[i]).range.end == s[i + 1].range.start ==> s[i].kind
            != s[i + 1].kind
}

/// In a sorted disjoint sequence, every earlier element ends no later than
/// any later element starts; starts and ends are strictly increasing.
pub proof fn lemma_order_pair(s: Seq<RangeEntry>, i: int, j: int)
    requires
        part_wf(s),
        0 <= i < j < s.len(),
    ensures
        s[i].range.end <= s[j].range.start,
        s[i].range.start < s[j].range.start,
        s[i].range.end < s[j].range.end,
    decreases j - i,
{
    if i + 1 == j {
    } else {
        lemma_order_pair(s, i, j - 1);
    }
}

// ---------------------------------------------------------------------------
// The deletion model: subtract the target interval from every element
// ---------------------------------------------------------------------------

/// What `remove` leaves: each element is replaced by the parts of it that
/// lie outside `r`, in order.
pub open spec fn remove_all(s: Seq<RangeEntry>, r: Interval) -> Seq<RangeEntry>
    decreases s.len(),
{
    if s.len() == 0 {
        Seq::empty()
    } else {
        remove_all(s.drop_last(), r) + subtract(s.last(), r)
    }
}

pub proof fn lemma_remove_all_take_step(s: Seq<RangeEntry>, r: Interval, i: int)
    requires
        0 <= i < s.len(),
    ensures
        remove_all(s.take(i + 1), r) == remove_all(s.take(i), r) + subtract(s[i], r),
    decreases s.len(),
{
    assert(s.take(i + 1).drop_last() =~= s.take(i));
    assert(s.take(i + 1).last() == s[i]);
}

pub proof fn lemma_remove_all_full(s: Seq<RangeEntry>, r: Interval)
    ensures
        remove_all(s.take(s.len() as int), r) == remove_all(s, r),
{
    assert(s.take(s.len() as int) =~= s);
}

/// Subtracting a valid interval from a disjoint valid element leaves the
/// element unchanged.
pub proof fn lemma_subtract_disjoint(e: RangeEntry, r: Interval)
    requires
        ival_valid(e.range),
        ival_valid(r),
        !overlap(e.range, r),
    ensures
        subtract(e, r) =~= seq![e],
{
    if e.range.end <= r.start {
        assert(left_part(e, r) == Some(e));
        assert(right_part(e, r) is None);
    } else {
        assert(e.range.start >= r.end);
        assert(left_part(e, r) is None);
        assert(right_part(e, r) == Some(e));
    }
}

/// `out` is a surviving piece of the source element `e`: same kind and
/// flag, interval contained in the source's.
pub open spec fn piece_of(out: RangeEntry, e: RangeEntry) -> bool {
    &&& out.kind == e.kind
    &&& out.overwritable == e.overwritable
    &&& e.range.start <= out.range.start
    &&& out.range.end <= e.range.end
    &&& ival_valid(out.range)
}

pub proof fn lemma_subtract_pieces(e: RangeEntry, r: Interval)
    requires
        ival_valid(e.range),
        ival_valid(r),
    ensures
        forall|k: int|
            0 <= k < subtract(e, r).len() ==> piece_of(#[trigger] subtract(e, r)[k], e),
        forall|k: int|
            0 <= k < subtract(e, r).len() ==> !overlap(#[trigger] subtract(e, r)[k].range, r),
        part_wf(subtract(e, r)),
        subtract(e, r).len() <= 2,
        subtract(e, r).len() == 2 ==> subtract(e, r)[0].range.end < subtract(e, r)[1].range.start,
{
}

/// The deletion model preserves the ordering part of the invariant, and
/// every output is a piece of some input.
pub proof fn lemma_remove_all_wf(s: Seq<RangeEntry>, r: Interval)
    requires
        part_wf(s),
        ival_valid(r),
    ensures
        part_wf(remove_all(s, r)),
        forall|k: int|
            0 <= k < remove_all(s, r).len() ==> exists|j: int|
                0 <= j < s.len() && piece_of(#[trigger] remove_all(s, r)[k], s[j]),
    decreases s.len(),
{
    if s.len() == 0 {
    } else {
        let s0 = s.drop_last();
        let e = s.last();
        let prev = remove_all(s0, r);
        let parts = subtract(e, r);
        assert(part_wf(s0));
        lemma_remove_all_wf(s0, r);
        lemma_subtract_pieces(e, r);
        let res = remove_all(s, r);
        assert(res == prev + parts);
        // every output of the recursive call is a piece of some element of s0,
        // hence of s
        assert forall|k: int| 0 <= k < res.len() implies exists|j: int|
            0 <= j < s.len() && piece_of(#[trigger] res[k], s[j]) by {
            if k < prev.len() {
                let j = choose|j: int| 0 <= j < s0.len() && piece_of(prev[k], s0[j]);
                assert(s0[j] == s[j]);
                assert(piece_of(res[k], s[j]));
            } else {
                assert(res[k] == parts[k - prev.len()]);
                assert(piece_of(res[k], s[s.len() - 1]));
            }
        }
        // ordering across the boundary: pieces of s0 end before e starts
        assert forall|i: int| 0 <= i < res.len() - 1 implies (#[trigger] res[i]).range.end <= res[
            i + 1].range.start by {
            if i + 1 < prev.len() {
            } else if i >= prev.len() {
                // both within parts
                assert(parts.len() == 2);
                assert(res[i] == parts[0] && res[i + 1] == parts[1]);
            } else {
                // i == prev.len() - 1, i + 1 == prev.len()
                let j = choose|j: int| 0 <= j < s0.len() && piece_of(prev[i], s0[j]);
                if j < s0.len() - 1 {
                    lemma_order_pair(s0, j, s0.len() - 1);
                }
                assert(prev[i].range.end <= s0[s0.len() - 1].range.end);
                assert(s0[s0.len() - 1].range.end <= e.range.start) by {
                    assert(s[s.len() - 2].range.end <= s[s.len() - 1].range.start);
                }
                assert(parts[0].range.start >= e.range.start);
            }
        }
        assert(part_wf(res));
    }
}

/// The deletion model also preserves the kind clause of the invariant.
#[verifier::spinoff_prover]
#[verifier::rlimit(60)]
pub proof fn lemma_remove_all_swf(s: Seq<RangeEntry>, r: Interval)
    requires
        seq_wf(s),
        ival_valid(r),
    ensures
        seq_wf(remove_all(s, r)),
    decreases s.len(),
{
    lemma_remove_all_wf(s, r);
    if s.len() == 0 {
    } else {
        let s0 = s.drop_last();
        let e = s.last();
        let prev = remove_all(s0, r);
        let parts = subtract(e, r);
        assert(seq_wf(s0));
        lemma_remove_all_swf(s0, r);
        lemma_remove_all_wf(s0, r);
        lemma_subtract_pieces(e, r);
        let res = remove_all(s, r);
        assert(res == prev + parts);
        assert forall|i: int|
            0 <= i < res.len() - 1 && (#[trigger] res[i]).range.end == res[i + 1].range.start
            implies res[i].kind != res[i + 1].kind by {
            if i + 1 < prev.len() {
                assert(prev[i].range.end == prev[i + 1].range.start);
            } else if i >= prev.len() {
                assert(parts.len() == 2);
                assert(res[i] == parts[0] && res[i + 1] == parts[1]);
                assert(false);
            } else {
                // boundary: last piece of s0 against the first part of e
                let a = prev[i];
                let b = parts[0];
                let j = choose|j: int| 0 <= j < s0.len() && piece_of(prev[i], s0[j]);
                assert(b.range.start >= e.range.start);
                assert(s.len() >= 2);
                assert(s[s.len() - 2].range.end <= s[s.len() - 1].range.start);
                if j < s0.len() - 1 {
                    lemma_order_pair(s0, j, s0.len() - 1);
                    assert(a.range.end < s0[s0.len() - 1].range.end);
                    assert(s0[s0.len() - 1].range.end <= e.range.start);
                    assert(false);
                } else {
                    // a is a piece of the last element of s0, and the chain
                    // a.end == b.start >= e.start >= s0.last.end >= a.end
                    // forces equality everywhere
                    assert(a.range.end <= s0[s0.len() - 1].range.end);
                    assert(s0[s0.len() - 1].range.end <= e.range.start);
                    assert(a.range.end == e.range.start);
                    assert(s0[s0.len() - 1].range.end == e.range.start);
                    assert(s[s.len() - 2].range.end == s[s.len() - 1].range.start);
                    assert(s[s.len() - 2].kind != s[s.len() - 1].kind);
                    assert(a.kind == s0[j].kind);
                    assert(b.kind == e.kind);
                }
            }
        }
    }
}

// ---------------------------------------------------------------------------
// The insertion model: carve foreign-kinded elements, then merge
// ---------------------------------------------------------------------------

/// What the overwrite pass does to one element: a same-kinded element
/// passes through; a differently-kinded one loses its overlap with the
/// incoming range.
pub open spec fn carve_one(e: RangeEntry, new: RangeEntry) -> Seq<RangeEntry> {
    if e.kind == new.kind {
        seq![e]
    } else {
        subtract(e, new.range)
    }
}

/// The whole overwrite pass.
pub open spec fn carve_all(s: Seq<RangeEntry>, new: RangeEntry) -> Seq<RangeEntry>
    decreases s.len(),
{
    if s.len() == 0 {
        Seq::empty()
    } else {
        carve_all(s.drop_last(), new) + carve_one(s.last(), new)
    }
}

pub proof fn lemma_carve_all_take_step(s: Seq<RangeEntry>, new: RangeEntry, i: int)
    requires
        0 <= i < s.len(),
    ensures
        carve_all(s.take(i + 1), new) == carve_all(s.take(i), new) + carve_one(s[i], new),
{
    assert(s.take(i + 1).drop_last() =~= s.take(i));
    assert(s.take(i + 1).last() == s[i]);
}

pub proof fn lemma_carve_all_full(s: Seq<RangeEntry>, new: RangeEntry)
    ensures
        carve_all(s.take(s.len() as int), new) == carve_all(s, new),
{
    assert(s.take(s.len() as int) =~= s);
}

pub proof fn lemma_carve_one_pieces(e: RangeEntry, new: RangeEntry)
    requires
        ival_valid(e.range),
        ival_valid(new.range),
    ensures
        forall|k: int|
            0 <= k < carve_one(e, new).len() ==> piece_of(#[trigger] carve_one(e, new)[k], e),
        forall|k: int|
            0 <= k < carve_one(e, new).len() && (#[trigger] carve_one(e, new)[k]).kind != new.kind
                ==> !overlap(carve_one(e, new)[k].range, new.range),
        part_wf(carve_one(e, new)),
        carve_one(e, new).len() <= 2,
        carve_one(e, new).len() == 2 ==> carve_one(e, new)[0].range.end < carve_one(
            e,
            new,
        )[1].range.start,
        carve_one(e, new).len() > 0 ==> carve_one(e, new)[0].range.start >= e.range.start,
{
    if e.kind == new.kind {
    } else {
        lemma_subtract_pieces(e, new.range);
    }
}

/// The overwrite pass preserves the full invariant; its outputs are pieces
/// of the inputs, and an output of a foreign kind never overlaps the
/// incoming range.
#[verifier::spinoff_prover]
#[verifier::rlimit(60)]
pub proof fn lemma_carve_all_wf(s: Seq<RangeEntry>, new: RangeEntry)
    requires
        seq_wf(s),
        ival_valid(new.range),
    ensures
        seq_wf(carve_all(s, new)),
        forall|k: int|
            0 <= k < carve_all(s, new).len() ==> exists|j: int|
                0 <= j < s.len() && piece_of(#[trigger] carve_all(s, new)[k], s[j]),
        forall|k: int|
            0 <= k < carve_all(s, new).len() && (#[trigger] carve_all(s, new)[k]).kind != new.kind
                ==> !overlap(carve_all(s, new)[k].range, new.range),
    decreases s.len(),
{
    if s.len() == 0 {
    } else {
        let s0 = s.drop_last();
        let e = s.last();
        let prev = carve_all(s0, new);
        let parts = carve_one(e, new);
        assert(seq_wf(s0));
        lemma_carve_all_wf(s0, new);
        lemma_carve_one_pieces(e, new);
        let res = carve_all(s, new);
        assert(res == prev + parts);
        assert forall|k: int| 0 <= k < res.len() implies exists|j: int|
            0 <= j < s.len() && piece_of(#[trigger] res[k], s[j]) by {
            if k < prev.len() {
                let j = choose|j: int| 0 <= j < s0.len() && piece_of(prev[k], s0[j]);
                assert(s0[j] == s[j]);
                assert(piece_of(res[k], s[j]));
            } else {
                assert(res[k] == parts[k - prev.len()]);
                assert(piece_of(res[k], s[s.len() - 1]));
            }
        }
        assert forall|i: int| 0 <= i < res.len() - 1 implies (#[trigger] res[i]).range.end <= res[
            i + 1].range.start by {
            if i + 1 < prev.len() {
            } else if i >= prev.len() {
                assert(parts.len() == 2);
                assert(res[i] == parts[0] && res[i + 1] == parts[1]);
            } else {
                let j = choose|j: int| 0 <= j < s0.len() && piece_of(prev[i], s0[j]);
                if j < s0.len() - 1 {
                    lemma_order_pair(s0, j, s0.len() - 1);
                }
                assert(prev[i].range.end <= s0[s0.len() - 1].range.end);
                assert(s0[s0.len() - 1].range.end <= e.range.start) by {
                    assert(s[s.len() - 2].range.end <= s[s.len() - 1].range.start);
                }
                assert(parts[0].range.start >= e.range.start);
            }
        }
        assert(part_wf(res));
        assert forall|i: int|
            0 <= i < res.len() - 1 && (#[trigger] res[i]).range.end == res[i + 1].range.start
            implies res[i].kind != res[i + 1].kind by {
            if i + 1 < prev.len() {
                assert(prev[i].range.end == prev[i + 1].range.start);
            } else if i >= prev.len() {
                assert(parts.len() == 2);
                assert(res[i] == parts[0] && res[i + 1] == parts[1]);
                assert(false);
            } else {
                let a = prev[i];
                let b = parts[0];
                let j = choose|j: int| 0 <= j < s0.len() && piece_of(prev[i], s0[j]);
                assert(b.range.start >= e.range.start);
                assert(s.len() >= 2);
                assert(s[s.len() - 2].range.end <= s[s.len() - 1].range.start);
                if j < s0.len() - 1 {
                    lemma_order_pair(s0, j, s0.len() - 1);
                    assert(a.range.end < s0[s0.len() - 1].range.end);
                    assert(s0[s0.len() - 1].range.end <= e.range.start);
                    assert(false);
                } else {
                    assert(a.range.end <= s0[s0.len() - 1].range.end);
                    assert(s0[s0.len() - 1].range.end <= e.range.start);
                    assert(a.range.end == e.range.start);
                    assert(s[s.len() - 2].range.end == s[s.len() - 1].range.start);
                    assert(s[s.len() - 2].kind != s[s.len() - 1].kind);
                    assert(a.kind == s0[j].kind);
                    assert(b.kind == e.kind);
                }
            }
        }
    }
}


// ---------------------------------------------------------------------------
// The same-kind merge step
// ---------------------------------------------------------------------------

/// Whether the merge step absorbs `e`: same kind, and its interval touches
/// or overlaps the incoming one (touching counts as mergeable).
pub open spec fn absorbs(e: RangeEntry, new: RangeEntry) -> bool {
    e.kind == new.kind && e.range.end >= new.range.start && e.range.start <= new.range.end
}

/// The carved elements that are not absorbed by the merge, in order.
pub open spec fn kept_elems(cs: Seq<RangeEntry>, new: RangeEntry) -> Seq<RangeEntry>
    decreases cs.len(),
{
    if cs.len() == 0 {
        Seq::empty()
    } else if absorbs(cs.last(), new) {
        kept_elems(cs.drop_last(), new)
    } else {
        kept_elems(cs.drop_last(), new).push(cs.last())
    }
}

/// The start of the merged interval: the incoming start, lowered to the
/// start of every absorbed element.
pub open spec fn merged_lo(cs: Seq<RangeEntry>, new: RangeEntry) -> i64
    decreases cs.len(),
{
    if cs.len() == 0 {
        new.range.start
    } else {
        let m = merged_lo(cs.drop_last(), new);
        if absorbs(cs.last(), new) {
            imin(m, cs.last().range.start)
        } else {
            m
        }
    }
}

/// The end of the merged interval, symmetrically.
pub open spec fn merged_hi(cs: Seq<RangeEntry>, new: RangeEntry) -> i64
    decreases cs.len(),
{
    if cs.len() == 0 {
        new.range.end
    } else {
        let m = merged_hi(cs.drop_last(), new);
        if absorbs(cs.last(), new) {
            imax(m, cs.last().range.end)
        } else {
            m
        }
    }
}

/// The element that the merge inserts: the fully unioned interval with the
/// incoming element's kind and flag.
pub open spec fn merged_entry(cs: Seq<RangeEntry>, new: RangeEntry) -> RangeEntry {
    RangeEntry {
        range: Interval { start: merged_lo(cs, new), end: merged_hi(cs, new) },
        kind: new.kind,
        overwritable: new.overwritable,
    }
}

/// How many elements start strictly before `x`.
pub open spec fn num_lt(s: Seq<RangeEntry>, x: i64) -> int
    decreases s.len(),
{
    if s.len() == 0 {
        0
    } else {
        num_lt(s.drop_last(), x) + if s.last().range.start < x {
            1int
        } else {
            0int
        }
    }
}

/// The merge step on an already carved sequence.
pub open spec fn merged_result(cs: Seq<RangeEntry>, new: RangeEntry) -> Seq<RangeEntry> {
    let kept = kept_elems(cs, new);
    let m = merged_entry(cs, new);
    kept.insert(num_lt(kept, m.range.start), m)
}

/// The whole insertion model: carve the foreign-kinded overlaps away, then
/// absorb the same-kinded neighbours into one element.
pub open spec fn spec_add(s: Seq<RangeEntry>, new: RangeEntry) -> Seq<RangeEntry> {
    merged_result(carve_all(s, new), new)
}

// ---------------------------------------------------------------------------
// Conflicts and coverage
// ---------------------------------------------------------------------------

/// `e` blocks the incoming element: overlapping, differently kinded, and
/// not overwritable.
pub open spec fn conflicting(e: RangeEntry, new: RangeEntry) -> bool {
    overlap(e.range, new.range) && e.kind != new.kind && !e.overwritable
}

pub open spec fn has_conflict(s: Seq<RangeEntry>, new: RangeEntry) -> bool {
    exists|i: int| 0 <= i < s.len() && conflicting(#[trigger] s[i], new)
}

pub open spec fn is_first_conflict(s: Seq<RangeEntry>, new: RangeEntry, i: int) -> bool {
    &&& 0 <= i < s.len()
    &&& conflicting(s[i], new)
    &&& forall|j: int| 0 <= j < i ==> !conflicting(#[trigger] s[j], new)
}

pub open spec fn entry_covers(e: RangeEntry, p: int) -> bool {
    e.range.start <= p < e.range.end
}

/// Whether some stored element holds the point `p`.
#[verifier::opaque]
pub open spec fn covered(s: Seq<RangeEntry>, p: int) -> bool {
    exists|i: int| 0 <= i < s.len() && entry_covers(#[trigger] s[i], p)
}

// ---------------------------------------------------------------------------
// Lemmas about the merge step
// ---------------------------------------------------------------------------

pub proof fn lemma_kept_none(cs: Seq<RangeEntry>, new: RangeEntry)
    requires
        forall|j: int| 0 <= j < cs.len() ==> !absorbs(#[trigger] cs[j], new),
    ensures
        kept_elems(cs, new) == cs,
        merged_lo(cs, new) == new.range.start,
        merged_hi(cs, new) == new.range.end,
    decreases cs.len(),
{
    if cs.len() == 0 {
        assert(kept_elems(cs, new) =~= cs);
    } else {
        lemma_kept_none(cs.drop_last(), new);
        assert(kept_elems(cs, new) =~= cs);
    }
}

/// When the absorbed elements are exactly the run `[q, r)`, the kept
/// elements are the prefix and the suffix around the run.
pub proof fn lemma_kept_run(cs: Seq<RangeEntry>, new: RangeEntry, q: int, r: int)
    requires
        0 <= q <= r <= cs.len(),
        forall|j: int| 0 <= j < cs.len() ==> (absorbs(#[trigger] cs[j], new) <==> q <= j < r),
    ensures
        kept_elems(cs, new) =~= cs.take(q) + cs.skip(r),
    decreases cs.len(),
{
    if q == r {
        lemma_kept_none(cs, new);
        assert(kept_elems(cs, new) =~= cs.take(q) + cs.skip(r));
    } else {
        let n = cs.len() as int;
        let cs0 = cs.drop_last();
        if r == n {
            assert(absorbs(cs[n - 1], new));
            lemma_kept_run(cs0, new, q, r - 1);
            assert(kept_elems(cs, new) == kept_elems(cs0, new));
            assert(cs0.take(q) =~= cs.take(q));
            assert(cs0.skip(r - 1) =~= Seq::<RangeEntry>::empty());
            assert(cs.skip(r) =~= Seq::<RangeEntry>::empty());
            assert(kept_elems(cs, new) =~= cs.take(q) + cs.skip(r));
        } else {
            assert(!absorbs(cs[n - 1], new));
            lemma_kept_run(cs0, new, q, r);
            assert(kept_elems(cs, new) == kept_elems(cs0, new).push(cs[n - 1]));
            assert(cs0.take(q) =~= cs.take(q));
            assert((cs0.take(q) + cs0.skip(r)).push(cs[n - 1]) =~= cs.take(q) + cs.skip(r));
        }
    }
}

/// With the absorbed run `[q, r)` in a sorted sequence, the merged span is
/// bounded by the run's first start and last end.
pub proof fn lemma_span_run(cs: Seq<RangeEntry>, new: RangeEntry, q: int, r: int)
    requires
        part_wf(cs),
        0 <= q <= r <= cs.len(),
        forall|j: int| 0 <= j < cs.len() ==> (absorbs(#[trigger] cs[j], new) <==> q <= j < r),
    ensures
        merged_lo(cs, new) == if q < r {
            imin(new.range.start, cs[q].range.start)
        } else {
            new.range.start
        },
        merged_hi(cs, new) == if q < r {
            imax(new.range.end, cs[r - 1].range.end)
        } else {
            new.range.end
        },
    decreases cs.len(),
{
    if q == r {
        lemma_kept_none(cs, new);
    } else {
        let n = cs.len() as int;
        let cs0 = cs.drop_last();
        assert(part_wf(cs0));
        if r == n {
            assert(absorbs(cs[n - 1], new));
            lemma_span_run(cs0, new, q, r - 1);
            if q < r - 1 {
                lemma_order_pair(cs, q, r - 1);
            }
        } else {
            assert(!absorbs(cs[n - 1], new));
            lemma_span_run(cs0, new, q, r);
        }
    }
}

/// `num_lt` counts a clean split: everything before `q` starts below `x`,
/// everything from `q` on does not.
pub proof fn lemma_num_lt_exact(s: Seq<RangeEntry>, x: i64, q: int)
    requires
        0 <= q <= s.len(),
        forall|j: int| 0 <= j < q ==> (#[trigger] s[j]).range.start < x,
        forall|j: int| q <= j < s.len() ==> (#[trigger] s[j]).range.start >= x,
    ensures
        num_lt(s, x) == q,
    decreases s.len(),
{
    if s.len() == 0 {
    } else {
        let n = s.len() as int;
        let s0 = s.drop_last();
        if s[n - 1].range.start < x {
            assert(q == n);
            lemma_num_lt_exact(s0, x, n - 1);
        } else {
            assert(q <= n - 1);
            lemma_num_lt_exact(s0, x, q);
        }
    }
}


/// The complete effect of the merge step, given the absorbed run `[q, r)`:
/// the merged element replaces the run, the result keeps the invariant,
/// and its length is pinned down.
#[verifier::spinoff_prover]
#[verifier::rlimit(100)]
pub proof fn lemma_insert_merge(cs: Seq<RangeEntry>, new: RangeEntry, q: int, r: int)
    requires
        seq_wf(cs),
        ival_valid(new.range),
        forall|k: int|
            0 <= k < cs.len() && (#[trigger] cs[k]).kind != new.kind ==> !overlap(
                cs[k].range,
                new.range,
            ),
        0 <= q <= r <= cs.len(),
        forall|j: int| 0 <= j < cs.len() ==> (absorbs(#[trigger] cs[j], new) <==> q <= j < r),
        q == r ==> (forall|j: int| 0 <= j < q ==> (#[trigger] cs[j]).range.start < new.range.start)
            && (forall|j: int|
            q <= j < cs.len() ==> (#[trigger] cs[j]).range.start >= new.range.start),
    ensures
        merged_lo(cs, new) == if q < r {
            imin(new.range.start, cs[q].range.start)
        } else {
            new.range.start
        },
        merged_hi(cs, new) == if q < r {
            imax(new.range.end, cs[r - 1].range.end)
        } else {
            new.range.end
        },
        merged_result(cs, new) =~= cs.take(q) + seq![merged_entry(cs, new)] + cs.skip(r),
        seq_wf(merged_result(cs, new)),
        merged_result(cs, new).len() == cs.len() - (r - q) + 1,
{
    let ns = new.range.start;
    let ne = new.range.end;
    let n = cs.len() as int;
    let k = new.kind;
    lemma_span_run(cs, new, q, r);
    let lo = merged_lo(cs, new);
    let hi = merged_hi(cs, new);
    let m = merged_entry(cs, new);
    assert(lo <= ns && ne <= hi);

    // Everything before the run ends at or before the merged start, and a
    // same-kinded element there ends strictly before the incoming start.
    assert forall|j: int| 0 <= j < q implies (#[trigger] cs[j]).range.end <= lo && (cs[j].kind == k
        ==> cs[j].range.end < ns) by {
        if q < r {
            assert(absorbs(cs[q], new));
            lemma_order_pair(cs, j, q);
            if cs[j].kind == k {
                assert(!absorbs(cs[j], new));
                assert(cs[j].range.start < cs[q].range.start <= ne);
                assert(cs[j].range.end < ns);
            } else {
                assert(!overlap(cs[j].range, new.range));
                assert(cs[j].range.start < cs[q].range.start <= ne);
                assert(cs[j].range.end <= ns);
            }
            assert(cs[j].range.end <= cs[q].range.start);
        } else {
            assert(cs[j].range.start < ns);
            if cs[j].kind == k {
                assert(!absorbs(cs[j], new));
                assert(cs[j].range.end < ns);
            } else {
                assert(!overlap(cs[j].range, new.range));
                assert(cs[j].range.end <= ns);
            }
        }
    }

    // Everything after the run starts at or after the merged end, and a
    // same-kinded element there starts strictly after the incoming end.
    assert forall|j: int| r <= j < n implies (#[trigger] cs[j]).range.start >= hi && (cs[j].kind
        == k ==> cs[j].range.start > ne) by {
        if q < r {
            assert(absorbs(cs[r - 1], new));
            if r - 1 < j {
                lemma_order_pair(cs, r - 1, j);
            }
            assert(cs[j].range.end > cs[j].range.start >= cs[r - 1].range.end >= ns);
            if cs[j].kind == k {
                assert(!absorbs(cs[j], new));
                assert(cs[j].range.start > ne);
            } else {
                assert(!overlap(cs[j].range, new.range));
                assert(cs[j].range.start >= ne);
            }
        } else {
            assert(cs[j].range.start >= ns);
            if cs[j].kind == k {
                assert(!absorbs(cs[j], new));
                assert(cs[j].range.start > ne);
            } else {
                assert(!overlap(cs[j].range, new.range));
                assert(cs[j].range.start >= ne);
            }
        }
    }

    let kept = kept_elems(cs, new);
    lemma_kept_run(cs, new, q, r);
    assert(kept.len() == q + (n - r));
    assert(forall|j: int| 0 <= j < q ==> #[trigger] kept[j] == cs[j]);
    assert(forall|j: int| q <= j < kept.len() ==> #[trigger] kept[j] == cs[j - q + r]);
    lemma_num_lt_exact(kept, lo, q);
    let res = merged_result(cs, new);
    assert(res == kept.insert(q, m));
    assert(res =~= cs.take(q) + seq![m] + cs.skip(r));
    assert(res.len() == n - (r - q) + 1);

    // index bookkeeping for the assembled sequence
    assert(forall|j: int| 0 <= j < q ==> #[trigger] res[j] == cs[j]);
    assert(res[q] == m);
    assert(forall|j: int| q < j < res.len() ==> #[trigger] res[j] == cs[j - q - 1 + r]);

    assert forall|i: int| 0 <= i < res.len() implies ival_valid((#[trigger] res[i]).range) by {
        if i == q {
            assert(lo <= ns < ne <= hi);
        }
    }
    assert forall|i: int| 0 <= i < res.len() - 1 implies (#[trigger] res[i]).range.end <= res[i
        + 1].range.start by {
        if i + 1 < q {
        } else if i + 1 == q {
            assert(res[i].range.end <= lo);
            if q < r {
                assert(cs[q - 1].range.end <= cs[q].range.start);
            }
        } else if i == q {
            assert(res[i + 1] == cs[r]);
            if q < r {
                assert(cs[r - 1].range.end <= cs[r].range.start);
            }
        } else {
        }
    }
    assert(part_wf(res));
    assert forall|i: int|
        0 <= i < res.len() - 1 && (#[trigger] res[i]).range.end == res[i + 1].range.start implies
        res[i].kind != res[i + 1].kind by {
        if i + 1 < q {
        } else if i + 1 == q {
            // a kept left neighbour that exactly touches the merged element
            // must have another kind
            let a = cs[q - 1];
            if a.kind == k {
                assert(a.range.end < ns);
                if q < r {
                    assert(a.range.end <= cs[q].range.start);
                    if lo == cs[q].range.start {
                        assert(a.range.end == cs[q].range.start);
                        assert(a.kind != cs[q].kind);
                        assert(cs[q].kind == k);
                        assert(false);
                    } else {
                        assert(lo == ns);
                        assert(false);
                    }
                } else {
                    assert(lo == ns);
                    assert(false);
                }
            }
        } else if i == q {
            let b = cs[r];
            if b.kind == k {
                assert(b.range.start > ne);
                if q < r {
                    assert(b.range.start >= cs[r - 1].range.end);
                    if hi == cs[r - 1].range.end {
                        assert(b.range.start == cs[r - 1].range.end);
                        assert(b.kind != cs[r - 1].kind);
                        assert(cs[r - 1].kind == k);
                        assert(false);
                    } else {
                        assert(hi == ne);
                        assert(false);
                    }
                } else {
                    assert(hi == ne);
                    assert(false);
                }
            }
        } else {
        }
    }
    assert(seq_wf(res));
}


/// Prefix lengths of the overwrite pass are monotone.
pub proof fn lemma_carve_len_mono(s: Seq<RangeEntry>, new: RangeEntry, i: int, j: int)
    requires
        0 <= i <= j <= s.len(),
    ensures
        carve_all(s.take(i), new).len() <= carve_all(s.take(j), new).len(),
    decreases j - i,
{
    if i < j {
        lemma_carve_len_mono(s, new, i, j - 1);
        lemma_carve_all_take_step(s, new, j - 1);
    }
}

/// Prefix lengths of the deletion pass are monotone.
pub proof fn lemma_remove_len_mono(s: Seq<RangeEntry>, r: Interval, i: int, j: int)
    requires
        0 <= i <= j <= s.len(),
    ensures
        remove_all(s.take(i), r).len() <= remove_all(s.take(j), r).len(),
    decreases j - i,
{
    if i < j {
        lemma_remove_len_mono(s, r, i, j - 1);
        lemma_remove_all_take_step(s, r, j - 1);
    }
}

/// The index of the first conflicting element (the sequence length when
/// there is none).
pub open spec fn first_conflict_idx(s: Seq<RangeEntry>, new: RangeEntry) -> int
    decreases s.len(),
{
    if s.len() == 0 {
        0
    } else if conflicting(s[0], new) {
        0
    } else {
        1 + first_conflict_idx(s.drop_first(), new)
    }
}

pub proof fn lemma_first_conflict(s: Seq<RangeEntry>, new: RangeEntry, i: int)
    requires
        is_first_conflict(s, new, i),
    ensures
        first_conflict_idx(s, new) == i,
    decreases s.len(),
{
    if conflicting(s[0], new) {
        assert(i == 0);
    } else {
        assert(i > 0);
        let s0 = s.drop_first();
        assert(conflicting(s0[i - 1], new));
        assert forall|j: int| 0 <= j < i - 1 implies !conflicting(#[trigger] s0[j], new) by {
            assert(s0[j] == s[j + 1]);
        }
        lemma_first_conflict(s0, new, i - 1);
    }
}


/// The two linear scans of the merge step find exactly the absorbed run:
/// given the break conditions on both sides of `[q, r)`, the absorbed
/// elements are exactly those in the run.
#[verifier::spinoff_prover]
#[verifier::rlimit(100)]
pub proof fn lemma_scan_run(cs: Seq<RangeEntry>, new: RangeEntry, p: int, q: int, r: int)
    requires
        seq_wf(cs),
        ival_valid(new.range),
        forall|j: int|
            0 <= j < cs.len() && (#[trigger] cs[j]).kind != new.kind ==> !overlap(
                cs[j].range,
                new.range,
            ),
        0 <= q <= p <= r <= cs.len(),
        forall|j: int| 0 <= j < p ==> (#[trigger] cs[j]).range.start < new.range.start,
        forall|j: int|
            p <= j < cs.len() ==> (#[trigger] cs[j]).range.start >= new.range.start,
        forall|j: int|
            q <= j < p ==> (#[trigger] cs[j]).kind == new.kind && cs[j].range.end
                >= new.range.start,
        forall|j: int|
            p <= j < r ==> (#[trigger] cs[j]).kind == new.kind && cs[j].range.start
                <= new.range.end,
        q == 0 || !(cs[q - 1].kind == new.kind && cs[q - 1].range.end >= new.range.start),
        r == cs.len() || !(cs[r].kind == new.kind && cs[r].range.start <= new.range.end),
    ensures
        forall|j: int| 0 <= j < cs.len() ==> (absorbs(#[trigger] cs[j], new) <==> q <= j < r),
{
    let k = new.kind;
    let ns = new.range.start;
    let ne = new.range.end;
    assert forall|j: int| 0 <= j < cs.len() implies (absorbs(#[trigger] cs[j], new) <==> q <= j
        < r) by {
        if q <= j < r {
            if j < p {
                assert(cs[j].range.start < ns <= ne);
            } else {
                assert(cs[j].range.end > cs[j].range.start >= ns);
            }
            assert(absorbs(cs[j], new));
        } else if absorbs(cs[j], new) {
            if j < q {
                assert(q > 0);
                if j < q - 1 {
                    lemma_order_pair(cs, j, q - 1);
                    assert(cs[j].range.end <= cs[q - 1].range.start);
                    assert(cs[q - 1].range.start < ns);
                    assert(false);
                } else {
                    assert(false);
                }
            } else {
                assert(j >= r);
                assert(r < cs.len() as int);
                if cs[r].kind == k {
                    assert(cs[r].range.start > ne);
                    if r < j {
                        lemma_order_pair(cs, r, j);
                    }
                    assert(cs[j].range.start > ne);
                    assert(false);
                } else {
                    assert(!overlap(cs[r].range, new.range));
                    assert(cs[r].range.start >= ns);
                    assert(cs[r].range.end > cs[r].range.start);
                    assert(cs[r].range.start >= ne);
                    if r < j {
                        lemma_order_pair(cs, r, j);
                        assert(cs[j].range.start > cs[r].range.start);
                    }
                    assert(cs[j].range.start >= ne);
                    assert(cs[j].range.start <= ne);
                    assert(cs[j].range.start < cs[j].range.end);
                    if r < j {
                        assert(false);
                    } else {
                        assert(j == r);
                        assert(cs[j].kind == k);
                        assert(false);
                    }
                }
            }
        }
    }
}


/// The two facts about the carved sequence that later proofs need.
pub proof fn lemma_carve_all_props(s: Seq<RangeEntry>, new: RangeEntry)
    requires
        seq_wf(s),
        ival_valid(new.range),
    ensures
        seq_wf(carve_all(s, new)),
        forall|k: int|
            0 <= k < carve_all(s, new).len() && (#[trigger] carve_all(s, new)[k]).kind != new.kind
                ==> !overlap(carve_all(s, new)[k].range, new.range),
{
    lemma_carve_all_wf(s, new);
}

} // verus!
