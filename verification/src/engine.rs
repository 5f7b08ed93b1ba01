use vstd::prelude::*;

use crate::geometry::{
    ival_valid, ranges_overlap, split_range, validate_range, Interval,
    RangeEntry, RangeError,
};
use crate::model::{
    carve_all, conflicting, covered, entry_covers, first_conflict_idx,
    has_conflict, is_first_conflict, lemma_carve_all_full, lemma_carve_all_props,
    lemma_carve_all_take_step, lemma_carve_len_mono, lemma_first_conflict, lemma_insert_merge,
    lemma_order_pair, lemma_remove_all_full, lemma_remove_all_swf, lemma_remove_all_take_step,
    lemma_remove_len_mono, lemma_scan_run, lemma_subtract_disjoint, merged_entry, merged_hi, merged_lo,
    merged_result, part_wf, remove_all, seq_wf, spec_add,
};
use crate::store::StoreOps;

verus! {

/// Whether the insertion of `new` can be staged and committed within the
/// given scratch and store capacities.
pub open spec fn add_fits(s: Seq<RangeEntry>, new: RangeEntry, scap: usize, tcap: usize) -> bool {
    &&& carve_all(s, new).len() <= scap
    &&& spec_add(s, new).len() <= scap
    &&& spec_add(s, new).len() <= tcap
}

/// Whether the deletion result can be staged and committed within the
/// given scratch and store capacities.
pub open spec fn remove_fits(s: Seq<RangeEntry>, r: Interval, scap: usize, tcap: usize) -> bool {
    &&& remove_all(s, r).len() <= scap
    &&& remove_all(s, r).len() <= tcap
}

/// Scan for a stored element that overlaps the incoming one, has another
/// kind and is not overwritable. Reports the first such element.
pub fn check_conflicts<S: StoreOps>(elements: &S, new_info: &RangeEntry) -> (r: Result<
    (),
    RangeError,
>)
    requires
        elements.wf(),
    ensures
        r is Ok <==> !has_conflict(elements.model(), *new_info),
        r is Err ==> r == Err::<(), RangeError>(
            RangeError::Conflict {
                new: *new_info,
                existing: elements.model()[first_conflict_idx(elements.model(), *new_info)],
            },
        ),
{
    let n = elements.count();
    let mut i: usize = 0;
    while i < n
        invariant
            elements.wf(),
            n == elements.model().len(),
            i <= n,
            forall|j: int| 0 <= j < i ==> !conflicting(#[trigger] elements.model()[j], *new_info),
        decreases n - i,
    {
        let e = elements.get_at(i);
        if ranges_overlap(&e.range, &new_info.range) && e.kind != new_info.kind
            && !e.overwritable {
            proof {
                assert(is_first_conflict(elements.model(), *new_info, i as int));
                lemma_first_conflict(elements.model(), *new_info, i as int);
            }
            return Err(RangeError::Conflict { new: *new_info, existing: e });
        }
        i += 1;
    }
    Ok(())
}

/// Binary search for the first element whose start is not below the
/// incoming start.
pub fn find_insert_position<S: StoreOps>(elements: &S, new_range: &Interval) -> (pos: usize)
    requires
        elements.wf(),
        part_wf(elements.model()),
    ensures
        pos <= elements.model().len(),
        forall|j: int|
            0 <= j < pos ==> (#[trigger] elements.model()[j]).range.start < new_range.start,
        forall|j: int|
            pos <= j < elements.model().len() ==> (#[trigger] elements.model()[j]).range.start
                >= new_range.start,
{
    let x = new_range.start;
    let mut lo: usize = 0;
    let mut hi: usize = elements.count();
    while lo < hi
        invariant
            elements.wf(),
            part_wf(elements.model()),
            lo <= hi <= elements.model().len(),
            forall|j: int| 0 <= j < lo ==> (#[trigger] elements.model()[j]).range.start < x,
            forall|j: int|
                hi <= j < elements.model().len() ==> (#[trigger] elements.model()[j]).range.start
                    >= x,
        decreases hi - lo,
    {
        let mid = lo + (hi - lo) / 2;
        let e = elements.get_at(mid);
        if e.range.start < x {
            proof {
                assert forall|j: int| 0 <= j < mid + 1 implies (
                #[trigger] elements.model()[j]).range.start < x by {
                    if j < mid {
                        lemma_order_pair(elements.model(), j, mid as int);
                    }
                }
            }
            lo = mid + 1;
        } else {
            proof {
                assert forall|j: int| mid <= j < elements.model().len() implies (
                #[trigger] elements.model()[j]).range.start >= x by {
                    if mid < j {
                        lemma_order_pair(elements.model(), mid as int, j);
                    }
                }
            }
            hi = mid;
        }
    }
    lo
}

/// Binary search for an element that holds the queried point.
pub fn contains_point<S: StoreOps>(elements: &S, value: i64) -> (r: bool)
    requires
        elements.wf(),
        part_wf(elements.model()),
    ensures
        r == covered(elements.model(), value as int),
{
    let mut lo: usize = 0;
    let mut hi: usize = elements.count();
    while lo < hi
        invariant
            elements.wf(),
            part_wf(elements.model()),
            lo <= hi <= elements.model().len(),
            forall|j: int|
                0 <= j < lo ==> !entry_covers(#[trigger] elements.model()[j], value as int),
            forall|j: int|
                hi <= j < elements.model().len() ==> !entry_covers(
                    #[trigger] elements.model()[j],
                    value as int,
                ),
        decreases hi - lo,
    {
        let mid = lo + (hi - lo) / 2;
        let e = elements.get_at(mid);
        if e.range.end <= value {
            proof {
                assert forall|j: int| 0 <= j < mid + 1 implies !entry_covers(
                    #[trigger] elements.model()[j],
                    value as int,
                ) by {
                    if j < mid {
                        lemma_order_pair(elements.model(), j, mid as int);
                    }
                }
            }
            lo = mid + 1;
        } else if e.range.start > value {
            proof {
                assert forall|j: int| mid <= j < elements.model().len() implies !entry_covers(
                    #[trigger] elements.model()[j],
                    value as int,
                ) by {
                    if mid < j {
                        lemma_order_pair(elements.model(), mid as int, j);
                    }
                }
            }
            hi = mid;
        } else {
            proof {
                reveal(crate::model::covered);
                assert(entry_covers(elements.model()[mid as int], value as int));
            }
            return true;
        }
    }
    proof {
        reveal(crate::model::covered);
    }
    false
}

/// The point-containment query over any backing store.
pub fn merge_contains_point<S: StoreOps>(elements: &S, value: i64) -> (r: bool)
    requires
        elements.wf(),
        part_wf(elements.model()),
    ensures
        r == covered(elements.model(), value as int),
{
    contains_point(elements, value)
}


/// Stage the deletion result in the scratch store: every element is
/// replaced by the parts of it that lie outside `range`.
fn stage_remove<S: StoreOps, B: StoreOps>(store: &S, scratch: &mut B, range: Interval) -> (r:
    Result<(), ()>)
    requires
        store.wf(),
        old(scratch).wf(),
        seq_wf(store.model()),
        ival_valid(range),
    ensures
        final(scratch).wf(),
        final(scratch).cap() == old(scratch).cap(),
        r is Ok ==> final(scratch).model() == remove_all(store.model(), range),
        r is Err ==> remove_all(store.model(), range).len() > old(scratch).cap(),
{
    let ghost s = store.model();
    scratch.reset();
    let n = store.count();
    let mut i: usize = 0;
    while i < n
        invariant
            store.wf(),
            scratch.wf(),
            store.model() == s,
            scratch.cap() == old(scratch).cap(),
            seq_wf(s),
            ival_valid(range),
            n == s.len(),
            i <= n,
            scratch.model() == remove_all(s.take(i as int), range),
        decreases n - i,
    {
        let e = store.get_at(i);
        proof {
            lemma_remove_all_take_step(s, range, i as int);
        }
        if !ranges_overlap(&e.range, &range) {
            proof {
                lemma_subtract_disjoint(e, range);
            }
            if scratch.append(e).is_err() {
                proof {
                    lemma_remove_len_mono(s, range, i + 1, n as int);
                    lemma_remove_all_full(s, range);
                }
                return Err(());
            }
        } else {
            let (l, rgt) = split_range(&e, &range);
            if let Some(le) = l {
                if scratch.append(le).is_err() {
                    proof {
                        lemma_remove_len_mono(s, range, i + 1, n as int);
                        lemma_remove_all_full(s, range);
                    }
                    return Err(());
                }
            }
            if let Some(re) = rgt {
                if scratch.append(re).is_err() {
                    proof {
                        lemma_remove_len_mono(s, range, i + 1, n as int);
                        lemma_remove_all_full(s, range);
                    }
                    return Err(());
                }
            }
        }
        proof {
            assert(scratch.model() =~= remove_all(s.take(i + 1), range));
        }
        i += 1;
    }
    proof {
        lemma_remove_all_full(s, range);
        assert(scratch.model() == remove_all(s, range));
    }
    Ok(())
}

/// Stage the overwrite pass in the scratch store: same-kinded elements
/// pass through, differently-kinded ones lose their overlap with the
/// incoming range.
fn stage_carve<S: StoreOps, B: StoreOps>(store: &S, scratch: &mut B, new_info: RangeEntry) -> (r:
    Result<(), ()>)
    requires
        store.wf(),
        old(scratch).wf(),
        seq_wf(store.model()),
        ival_valid(new_info.range),
    ensures
        final(scratch).wf(),
        final(scratch).cap() == old(scratch).cap(),
        r is Ok ==> final(scratch).model() == carve_all(store.model(), new_info),
        r is Err ==> carve_all(store.model(), new_info).len() > old(scratch).cap(),
{
    let ghost s = store.model();
    scratch.reset();
    let n = store.count();
    let mut i: usize = 0;
    while i < n
        invariant
            store.wf(),
            scratch.wf(),
            store.model() == s,
            scratch.cap() == old(scratch).cap(),
            seq_wf(s),
            ival_valid(new_info.range),
            n == s.len(),
            i <= n,
            scratch.model() == carve_all(s.take(i as int), new_info),
        decreases n - i,
    {
        let e = store.get_at(i);
        proof {
            lemma_carve_all_take_step(s, new_info, i as int);
        }
        if e.kind == new_info.kind {
            if scratch.append(e).is_err() {
                proof {
                    lemma_carve_len_mono(s, new_info, i + 1, n as int);
                    lemma_carve_all_full(s, new_info);
                }
                return Err(());
            }
        } else if !ranges_overlap(&e.range, &new_info.range) {
            proof {
                lemma_subtract_disjoint(e, new_info.range);
            }
            if scratch.append(e).is_err() {
                proof {
                    lemma_carve_len_mono(s, new_info, i + 1, n as int);
                    lemma_carve_all_full(s, new_info);
                }
                return Err(());
            }
        } else {
            let (l, rgt) = split_range(&e, &new_info.range);
            if let Some(le) = l {
                if scratch.append(le).is_err() {
                    proof {
                        lemma_carve_len_mono(s, new_info, i + 1, n as int);
                        lemma_carve_all_full(s, new_info);
                    }
                    return Err(());
                }
            }
            if let Some(re) = rgt {
                if scratch.append(re).is_err() {
                    proof {
                        lemma_carve_len_mono(s, new_info, i + 1, n as int);
                        lemma_carve_all_full(s, new_info);
                    }
                    return Err(());
                }
            }
        }
        proof {
            assert(scratch.model() =~= carve_all(s.take(i + 1), new_info));
        }
        i += 1;
    }
    proof {
        lemma_carve_all_full(s, new_info);
        assert(scratch.model() == carve_all(s, new_info));
    }
    Ok(())
}

/// Copy the staged result back into the store, if it fits; otherwise
/// leave the store untouched.
fn commit_from_scratch<S: StoreOps, B: StoreOps>(store: &mut S, scratch: &B) -> (r: Result<
    (),
    RangeError,
>)
    requires
        old(store).wf(),
        scratch.wf(),
    ensures
        final(store).wf(),
        final(store).cap() == old(store).cap(),
        scratch.model().len() <= old(store).cap() ==> r is Ok && final(store).model()
            == scratch.model(),
        scratch.model().len() > old(store).cap() ==> r == Err::<(), RangeError>(
            RangeError::Capacity,
        ) && final(store).model() == old(store).model(),
{
    let total = scratch.count();
    if total > store.capacity() {
        return Err(RangeError::Capacity);
    }
    store.reset();
    let mut j: usize = 0;
    while j < total
        invariant
            store.wf(),
            scratch.wf(),
            store.cap() == old(store).cap(),
            total == scratch.model().len(),
            total <= store.cap(),
            j <= total,
            store.model() == scratch.model().take(j as int),
        decreases total - j,
    {
        let e = scratch.get_at(j);
        if store.append(e).is_err() {
            proof {
                assert(false);
            }
            return Err(RangeError::Capacity);
        }
        proof {
            assert(store.model() =~= scratch.model().take(j + 1));
        }
        j += 1;
    }
    proof {
        assert(store.model() =~= scratch.model());
    }
    Ok(())
}

/// The deletion engine: remove the intersection of `range` from every
/// stored element, splitting an element that strictly contains it. The
/// result is staged in the caller-supplied scratch store and committed
/// only when it fits; on a capacity error the store is left unchanged.
pub fn merge_remove<S: StoreOps, B: StoreOps>(
    store: &mut S,
    scratch: &mut B,
    range: Interval,
) -> (res: Result<(), RangeError>)
    requires
        old(store).wf(),
        old(scratch).wf(),
        seq_wf(old(store).model()),
    ensures
        final(store).wf(),
        final(scratch).wf(),
        final(store).cap() == old(store).cap(),
        final(scratch).cap() == old(scratch).cap(),
        seq_wf(final(store).model()),
        !ival_valid(range) ==> res is Ok && final(store).model() == old(store).model(),
        ival_valid(range) && remove_fits(
            old(store).model(),
            range,
            old(scratch).cap(),
            old(store).cap(),
        ) ==> res is Ok && final(store).model() == remove_all(old(store).model(), range),
        ival_valid(range) && !remove_fits(
            old(store).model(),
            range,
            old(scratch).cap(),
            old(store).cap(),
        ) ==> res == Err::<(), RangeError>(RangeError::Capacity) && final(store).model() == old(
            store,
        ).model(),
{
    let ghost s = old(store).model();
    if !(range.start < range.end) {
        return Ok(());
    }
    proof {
        lemma_remove_all_swf(s, range);
    }
    if stage_remove(store, scratch, range).is_err() {
        return Err(RangeError::Capacity);
    }
    proof {
        scratch.lemma_len_cap();
    }
    commit_from_scratch(store, scratch)
}

/// Replace the absorbed run `[q, r)` of the staged sequence by the single
/// merged element.
fn splice_merged<B: StoreOps>(
    scratch: &mut B,
    q: usize,
    r: usize,
    me: RangeEntry,
    Ghost(cs): Ghost<Seq<RangeEntry>>,
) -> (res: Result<(), ()>)
    requires
        old(scratch).wf(),
        old(scratch).model() == cs,
        q <= r <= cs.len(),
    ensures
        final(scratch).wf(),
        final(scratch).cap() == old(scratch).cap(),
        res is Ok ==> final(scratch).model() == cs.take(q as int) + seq![me] + cs.skip(r as int),
        res is Err ==> old(scratch).cap() <= cs.len() - (r - q),
{
    let mut rem = r - q;
    while rem > 0
        invariant
            scratch.wf(),
            scratch.cap() == old(scratch).cap(),
            q <= r <= cs.len(),
            rem <= r - q,
            scratch.model() == cs.take(q as int) + cs.skip(r - rem),
        decreases rem,
    {
        proof {
            assert(scratch.model().len() == q + cs.len() - (r - rem));
        }
        scratch.remove_at(q);
        proof {
            assert(scratch.model() =~= cs.take(q as int) + cs.skip(r - (rem - 1)));
        }
        rem -= 1;
    }
    proof {
        assert(scratch.model() == cs.take(q as int) + cs.skip(r as int));
        assert(scratch.model().len() == cs.len() - (r - q));
    }
    if scratch.insert_at(q, me).is_err() {
        return Err(());
    }
    proof {
        assert(scratch.model() == (cs.take(q as int) + cs.skip(r as int)).insert(q as int, me));
        assert(scratch.model() =~= cs.take(q as int) + seq![me] + cs.skip(r as int));
    }
    Ok(())
}

/// The merge step after validation and the conflict scan: carve, absorb
/// the touching same-kinded neighbours, insert the merged element, and
/// commit.
#[verifier::spinoff_prover]
fn add_after_checks<S: StoreOps, B: StoreOps>(
    store: &mut S,
    scratch: &mut B,
    new_info: RangeEntry,
) -> (res: Result<(), RangeError>)
    requires
        old(store).wf(),
        old(scratch).wf(),
        seq_wf(old(store).model()),
        ival_valid(new_info.range),
    ensures
        final(store).wf(),
        final(scratch).wf(),
        final(store).cap() == old(store).cap(),
        final(scratch).cap() == old(scratch).cap(),
        seq_wf(final(store).model()),
        add_fits(old(store).model(), new_info, old(scratch).cap(), old(store).cap()) ==> res is Ok
            && final(store).model() == spec_add(old(store).model(), new_info),
        !add_fits(old(store).model(), new_info, old(scratch).cap(), old(store).cap()) ==> res
            == Err::<(), RangeError>(RangeError::Capacity) && final(store).model() == old(store).model(),
{
    let ghost s = old(store).model();
    proof {
        lemma_carve_all_props(s, new_info);
    }
    let ghost cs = carve_all(s, new_info);
    if stage_carve(store, scratch, new_info).is_err() {
        return Err(RangeError::Capacity);
    }
    proof {
        scratch.lemma_len_cap();
    }

    let p = find_insert_position(scratch, &new_info.range);
    let cn = scratch.count();
    let mut q = p;
    loop
        invariant
            scratch.wf(),
            scratch.cap() == old(scratch).cap(),
            scratch.model() == cs,
            seq_wf(cs),
            ival_valid(new_info.range),
            cn == cs.len(),
            q <= p <= cn,
            forall|j: int|
                q <= j < p ==> (#[trigger] cs[j]).kind == new_info.kind && cs[j].range.end
                    >= new_info.range.start,
        ensures
            q == 0 || !(cs[q - 1].kind == new_info.kind && cs[q - 1].range.end
                >= new_info.range.start),
        decreases q,
    {
        if q == 0 {
            break ;
        }
        let e = scratch.get_at(q - 1);
        if !(e.kind == new_info.kind && e.range.end >= new_info.range.start) {
            break ;
        }
        q -= 1;
    }
    let mut r = p;
    loop
        invariant
            scratch.wf(),
            scratch.cap() == old(scratch).cap(),
            scratch.model() == cs,
            seq_wf(cs),
            ival_valid(new_info.range),
            cn == cs.len(),
            p <= r <= cn,
            forall|j: int|
                p <= j < r ==> (#[trigger] cs[j]).kind == new_info.kind && cs[j].range.start
                    <= new_info.range.end,
        ensures
            r == cn || !(cs[r as int].kind == new_info.kind && cs[r as int].range.start
                <= new_info.range.end),
        decreases cn - r,
    {
        if r == cn {
            break ;
        }
        let e = scratch.get_at(r);
        if !(e.kind == new_info.kind && e.range.start <= new_info.range.end) {
            break ;
        }
        r += 1;
    }

    proof {
        lemma_scan_run(cs, new_info, p as int, q as int, r as int);
        lemma_insert_merge(cs, new_info, q as int, r as int);
    }

    let mut lo = new_info.range.start;
    let mut hi = new_info.range.end;
    if q < r {
        let eq = scratch.get_at(q);
        if eq.range.start < lo {
            lo = eq.range.start;
        }
        let er = scratch.get_at(r - 1);
        if er.range.end > hi {
            hi = er.range.end;
        }
    }
    proof {
        assert(lo == merged_lo(cs, new_info));
        assert(hi == merged_hi(cs, new_info));
    }

    let me = RangeEntry {
        range: Interval { start: lo, end: hi },
        kind: new_info.kind,
        overwritable: new_info.overwritable,
    };
    proof {
        assert(me == merged_entry(cs, new_info));
        assert(spec_add(s, new_info).len() == cs.len() - (r - q) + 1);
    }
    if splice_merged(scratch, q, r, me, Ghost(cs)).is_err() {
        return Err(RangeError::Capacity);
    }
    proof {
        assert(spec_add(s, new_info) == merged_result(cs, new_info));
        assert(scratch.model() == spec_add(s, new_info));
        scratch.lemma_len_cap();
    }
    commit_from_scratch(store, scratch)
}


/// The conflict & merge engine. Validates the incoming element, scans for
/// kind conflicts, carves the overlap out of overwritable foreign-kinded
/// elements, and inserts one element carrying the union of the incoming
/// range with all touching same-kinded neighbours. The result is staged
/// in the caller-supplied scratch store and committed only when it fits;
/// on any error the store is left unchanged.
pub fn merge_add<S: StoreOps, B: StoreOps>(
    store: &mut S,
    scratch: &mut B,
    new_info: RangeEntry,
) -> (res: Result<(), RangeError>)
    requires
        old(store).wf(),
        old(scratch).wf(),
        seq_wf(old(store).model()),
    ensures
        final(store).wf(),
        final(scratch).wf(),
        final(store).cap() == old(store).cap(),
        final(scratch).cap() == old(scratch).cap(),
        seq_wf(final(store).model()),
        !ival_valid(new_info.range) ==> res is Ok && final(store).model() == old(store).model(),
        ival_valid(new_info.range) && has_conflict(old(store).model(), new_info) ==> final(store).model() == old(store).model() && res == Err::<(), RangeError>(
            RangeError::Conflict {
                new: new_info,
                existing: old(store).model()[first_conflict_idx(old(store).model(), new_info)],
            },
        ),
        ival_valid(new_info.range) && !has_conflict(old(store).model(), new_info) && add_fits(
            old(store).model(),
            new_info,
            old(scratch).cap(),
            old(store).cap(),
        ) ==> res is Ok && final(store).model() == spec_add(old(store).model(), new_info),
        ival_valid(new_info.range) && !has_conflict(old(store).model(), new_info) && !add_fits(
            old(store).model(),
            new_info,
            old(scratch).cap(),
            old(store).cap(),
        ) ==> res == Err::<(), RangeError>(RangeError::Capacity) && final(store).model() == old(store).model(),
{
    if !validate_range(&new_info) {
        return Ok(());
    }
    match check_conflicts(store, &new_info) {
        Err(e) => {
            return Err(e);
        },
        Ok(()) => {},
    }
    add_after_checks(store, scratch, new_info)
}


/// What a batch insertion does: each element in turn, stopping at the
/// first error and leaving the earlier insertions committed.
pub open spec fn extend_state(
    s: Seq<RangeEntry>,
    items: Seq<RangeEntry>,
    scap: usize,
    tcap: usize,
) -> (Seq<RangeEntry>, Option<RangeError>)
    decreases items.len(),
{
    if items.len() == 0 {
        (s, None)
    } else {
        let e = items[0];
        if !ival_valid(e.range) {
            extend_state(s, items.drop_first(), scap, tcap)
        } else if has_conflict(s, e) {
            (s, Some(RangeError::Conflict { new: e, existing: s[first_conflict_idx(s, e)] }))
        } else if !add_fits(s, e, scap, tcap) {
            (s, Some(RangeError::Capacity))
        } else {
            extend_state(spec_add(s, e), items.drop_first(), scap, tcap)
        }
    }
}

/// Batch insertion: sequential `merge_add` per item, short-circuiting on
/// the first error; elements inserted before the error stay committed.
#[verifier::spinoff_prover]
#[verifier::rlimit(100)]
pub fn merge_extend<S: StoreOps, B: StoreOps>(
    store: &mut S,
    scratch: &mut B,
    items: Vec<RangeEntry>,
) -> (res: Result<(), RangeError>)
    requires
        old(store).wf(),
        old(scratch).wf(),
        seq_wf(old(store).model()),
    ensures
        final(store).wf(),
        final(scratch).wf(),
        final(store).cap() == old(store).cap(),
        final(scratch).cap() == old(scratch).cap(),
        seq_wf(final(store).model()),
        final(store).model() == extend_state(
            old(store).model(),
            items@,
            old(scratch).cap(),
            old(store).cap(),
        ).0,
        res == match extend_state(
            old(store).model(),
            items@,
            old(scratch).cap(),
            old(store).cap(),
        ).1 {
            None => Ok::<(), RangeError>(()),
            Some(e) => Err::<(), RangeError>(e),
        },
{
    let ghost s0 = old(store).model();
    let ghost scap = old(scratch).cap();
    let ghost tcap = old(store).cap();
    let n = items.len();
    proof {
        assert(items@.skip(0) =~= items@);
    }
    let mut i: usize = 0;
    while i < n
        invariant
            store.wf(),
            scratch.wf(),
            store.cap() == tcap,
            scratch.cap() == scap,
            seq_wf(store.model()),
            s0 == old(store).model(),
            scap == old(scratch).cap(),
            tcap == old(store).cap(),
            i <= n,
            n == items@.len(),
            extend_state(s0, items@, scap, tcap) == extend_state(
                store.model(),
                items@.skip(i as int),
                scap,
                tcap,
            ),
        decreases n - i,
    {
        let e = items[i];
        let ghost pre = store.model();
        proof {
            assert(items@.skip(i as int)[0] == items@[i as int]);
            assert(items@.skip(i as int).drop_first() =~= items@.skip(i + 1));
        }
        match merge_add(store, scratch, e) {
            Ok(()) => {
                proof {
                    if !ival_valid(e.range) {
                        assert(store.model() == pre);
                        assert(extend_state(pre, items@.skip(i as int), scap, tcap)
                            == extend_state(pre, items@.skip(i + 1), scap, tcap));
                    } else {
                        assert(!has_conflict(pre, e));
                        assert(add_fits(pre, e, scap, tcap));
                        assert(store.model() == spec_add(pre, e));
                        assert(extend_state(pre, items@.skip(i as int), scap, tcap)
                            == extend_state(spec_add(pre, e), items@.skip(i + 1), scap, tcap));
                    }
                }
            },
            Err(er) => {
                proof {
                    assert(ival_valid(e.range));
                    if has_conflict(pre, e) {
                        assert(er == RangeError::Conflict {
                            new: e,
                            existing: pre[first_conflict_idx(pre, e)],
                        });
                    } else {
                        assert(er == RangeError::Capacity);
                        assert(!add_fits(pre, e, scap, tcap));
                    }
                    assert(extend_state(pre, items@.skip(i as int), scap, tcap) == (
                        pre,
                        Some(er),
                    ));
                }
                return Err(er);
            },
        }
        i += 1;
    }
    proof {
        assert(items@.skip(n as int) =~= Seq::<RangeEntry>::empty());
    }
    Ok(())
}

} // verus!
