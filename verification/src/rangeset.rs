use vstd::prelude::*;

use crate::geometry::{imax, imin, ival_valid, overlap, Interval};

verus! {

/// One original interval together with its metadata, as handed to `add`.
#[derive(Clone, Copy, PartialEq, Eq, Structural, Debug)]
pub struct OriginalRange {
    pub range: Interval,
    pub meta: u64,
}

/// One stored element: the merged interval and the original sub-ranges
/// (with their metadata) that were combined to form it.
#[derive(Clone, Debug)]
pub struct MergedRange {
    pub merged: Interval,
    pub originals: Vec<OriginalRange>,
}

/// An ordered set of mutually disjoint, maximally merged intervals; each
/// element keeps the list of original sub-ranges it absorbed, so metadata
/// stays queryable per sub-region after geometric merging.
#[derive(Clone, Debug)]
pub struct RangeSet {
    elements: Vec<MergedRange>,
}

/// The mathematical value of one stored element.
pub open spec fn mr_view(m: MergedRange) -> (Interval, Seq<OriginalRange>) {
    (m.merged, m.originals@)
}

/// The mathematical value of the whole set.
pub open spec fn md_view(es: Seq<MergedRange>) -> Seq<(Interval, Seq<OriginalRange>)> {
    es.map_values(|m: MergedRange| mr_view(m))
}

/// Original lists are kept sorted by start, every entry non-empty.
pub open spec fn orgs_wf(os: Seq<OriginalRange>) -> bool {
    &&& forall|i: int| 0 <= i < os.len() ==> ival_valid((#[trigger] os[i]).range)
    &&& forall|i: int|
        0 <= i < os.len() - 1 ==> (#[trigger] os[i]).range.start <= os[i + 1].range.start
}

/// The set invariant: non-empty intervals, sorted with a strict gap
/// between neighbours (touching elements would have been merged), and a
/// sorted, non-empty original list on every element.
pub open spec fn md_wf(v: Seq<(Interval, Seq<OriginalRange>)>) -> bool {
    &&& forall|i: int| 0 <= i < v.len() ==> ival_valid((#[trigger] v[i]).0)
    &&& forall|i: int| 0 <= i < v.len() - 1 ==> (#[trigger] v[i]).0.end < v[i + 1].0.start
    &&& forall|i: int| 0 <= i < v.len() ==> orgs_wf((#[trigger] v[i]).1)
    &&& forall|i: int| 0 <= i < v.len() ==> (#[trigger] v[i]).1.len() > 0
}

pub proof fn lemma_md_order_pair(v: Seq<(Interval, Seq<OriginalRange>)>, i: int, j: int)
    requires
        md_wf(v),
        0 <= i < j < v.len(),
    ensures
        v[i].0.end < v[j].0.start,
        v[i].0.start < v[j].0.start,
        v[i].0.end < v[j].0.end,
    decreases j - i,
{
    if i + 1 == j {
    } else {
        lemma_md_order_pair(v, i, j - 1);
    }
}

// ---------------------------------------------------------------------------
// Specs for the original-list bookkeeping
// ---------------------------------------------------------------------------

/// Insert `x` into a sorted list, after every entry whose start is not
/// greater (so insertion is stable).
pub open spec fn org_insert(s: Seq<OriginalRange>, x: OriginalRange) -> Seq<OriginalRange>
    decreases s.len(),
{
    if s.len() == 0 {
        seq![x]
    } else if s[0].range.start <= x.range.start {
        seq![s[0]] + org_insert(s.drop_first(), x)
    } else {
        seq![x] + s
    }
}

/// Stable insertion sort by start.
pub open spec fn org_sort(s: Seq<OriginalRange>) -> Seq<OriginalRange>
    decreases s.len(),
{
    if s.len() == 0 {
        Seq::empty()
    } else {
        org_insert(org_sort(s.drop_last()), s.last())
    }
}

/// Coalesce a sorted list: adjacent or overlapping entries of equal
/// metadata fuse into one.
pub open spec fn org_coal(acc: OriginalRange, rest: Seq<OriginalRange>) -> Seq<OriginalRange>
    decreases rest.len(),
{
    if rest.len() == 0 {
        seq![acc]
    } else {
        let nx = rest[0];
        if acc.meta == nx.meta && acc.range.end >= nx.range.start {
            org_coal(
                OriginalRange {
                    range: Interval { start: acc.range.start, end: imax(acc.range.end, nx.range.end) },
                    meta: acc.meta,
                },
                rest.drop_first(),
            )
        } else {
            seq![acc] + org_coal(nx, rest.drop_first())
        }
    }
}

/// Sort, then coalesce: the normal form of an original list.
#[verifier::opaque]
pub open spec fn org_norm(s: Seq<OriginalRange>) -> Seq<OriginalRange> {
    let t = org_sort(s);
    if t.len() == 0 {
        Seq::empty()
    } else {
        org_coal(t[0], t.drop_first())
    }
}

/// The originals that survive deleting `rng`: those not fully contained
/// in it.
pub open spec fn orgs_keep(os: Seq<OriginalRange>, rng: Interval) -> Seq<OriginalRange>
    decreases os.len(),
{
    if os.len() == 0 {
        Seq::empty()
    } else {
        let kept = orgs_keep(os.drop_last(), rng);
        let o = os.last();
        if rng.start <= o.range.start && o.range.end <= rng.end {
            kept
        } else {
            kept.push(o)
        }
    }
}

/// All originals of a run of elements, in order.
pub open spec fn orgs_concat(run: Seq<(Interval, Seq<OriginalRange>)>) -> Seq<OriginalRange>
    decreases run.len(),
{
    if run.len() == 0 {
        Seq::empty()
    } else {
        orgs_concat(run.drop_last()) + run.last().1
    }
}

// ---------------------------------------------------------------------------
// Specs for the set operations
// ---------------------------------------------------------------------------

/// How many elements end strictly before `x`: the start of the touching
/// run for an incoming interval starting at `x`.
pub open spec fn md_q(v: Seq<(Interval, Seq<OriginalRange>)>, x: i64) -> int
    decreases v.len(),
{
    if v.len() == 0 {
        0
    } else {
        md_q(v.drop_last(), x) + if v.last().0.end < x {
            1int
        } else {
            0int
        }
    }
}

/// How many elements start at or before `x`: the end of the touching run
/// for an incoming interval ending at `x`.
pub open spec fn md_r(v: Seq<(Interval, Seq<OriginalRange>)>, x: i64) -> int
    decreases v.len(),
{
    if v.len() == 0 {
        0
    } else {
        md_r(v.drop_last(), x) + if v.last().0.start <= x {
            1int
        } else {
            0int
        }
    }
}

/// What `add` produces: the touching run `[q, r)` is replaced by one
/// element whose interval is the union and whose originals are the
/// normal form of the run's originals plus the new one.
pub open spec fn md_add(
    v: Seq<(Interval, Seq<OriginalRange>)>,
    rng: Interval,
    meta: u64,
) -> Seq<(Interval, Seq<OriginalRange>)> {
    let q = md_q(v, rng.start);
    let r = md_r(v, rng.end);
    let lo = if q < r {
        imin(rng.start, v[q].0.start)
    } else {
        rng.start
    };
    let hi = if q < r {
        imax(rng.end, v[r - 1].0.end)
    } else {
        rng.end
    };
    let all = orgs_concat(v.subrange(q, r)).push(OriginalRange { range: rng, meta });
    v.take(q) + seq![(Interval { start: lo, end: hi }, org_norm(all))] + v.skip(r)
}

/// What `remove` leaves of one element: nothing when every original was
/// contained in the deleted interval, otherwise the surviving left and/or
/// right remainders, each carrying the surviving originals.
pub open spec fn md_remove_one(
    e: (Interval, Seq<OriginalRange>),
    rng: Interval,
) -> Seq<(Interval, Seq<OriginalRange>)> {
    if !overlap(e.0, rng) {
        seq![e]
    } else {
        let fos = orgs_keep(e.1, rng);
        if fos.len() == 0 {
            Seq::empty()
        } else {
            let l = Interval { start: e.0.start, end: imin(e.0.end, rng.start) };
            let t = Interval { start: imax(e.0.start, rng.end), end: e.0.end };
            (if ival_valid(l) {
                seq![(l, fos)]
            } else {
                Seq::empty()
            }) + (if ival_valid(t) {
                seq![(t, fos)]
            } else {
                Seq::empty()
            })
        }
    }
}

/// What `remove` produces over the whole set.
pub open spec fn md_remove_all(
    v: Seq<(Interval, Seq<OriginalRange>)>,
    rng: Interval,
) -> Seq<(Interval, Seq<OriginalRange>)>
    decreases v.len(),
{
    if v.len() == 0 {
        Seq::empty()
    } else {
        md_remove_all(v.drop_last(), rng) + md_remove_one(v.last(), rng)
    }
}

/// Whether some stored interval holds the point `p`.
pub open spec fn md_covered(v: Seq<(Interval, Seq<OriginalRange>)>, p: int) -> bool {
    exists|i: int| 0 <= i < v.len() && (#[trigger] v[i]).0.start <= p < v[i].0.end
}


// ---------------------------------------------------------------------------
// Lemmas: split points, original lists, invariant preservation
// ---------------------------------------------------------------------------

#[verifier::spinoff_prover]
#[verifier::rlimit(100)]
pub proof fn lemma_md_q_char(v: Seq<(Interval, Seq<OriginalRange>)>, x: i64)
    requires
        md_wf(v),
    ensures
        0 <= md_q(v, x) <= v.len(),
        forall|j: int| 0 <= j < md_q(v, x) ==> (#[trigger] v[j]).0.end < x,
        forall|j: int| md_q(v, x) <= j < v.len() ==> (#[trigger] v[j]).0.end >= x,
    decreases v.len(),
{
    if v.len() == 0 {
    } else {
        let n = v.len() as int;
        let v0 = v.drop_last();
        assert(forall|j: int| 0 <= j < n - 1 ==> #[trigger] v0[j] == v[j]);
        assert(md_wf(v0));
        lemma_md_q_char(v0, x);
        let q0 = md_q(v0, x);
        if v[n - 1].0.end < x {
            if q0 < n - 1 {
                assert(v[q0].0.end >= x);
                lemma_md_order_pair(v, q0, n - 1);
                assert(false);
            }
            assert(md_q(v, x) == n);
            assert forall|j: int| 0 <= j < n implies (#[trigger] v[j]).0.end < x by {
                if j < n - 1 {
                    assert(v[j] == v0[j]);
                }
            }
        } else {
            assert(md_q(v, x) == q0);
            assert forall|j: int| 0 <= j < q0 implies (#[trigger] v[j]).0.end < x by {
                assert(v[j] == v0[j]);
            }
            assert forall|j: int| q0 <= j < n implies (#[trigger] v[j]).0.end >= x by {
                if j < n - 1 {
                    assert(v[j] == v0[j]);
                }
            }
        }
    }
}

#[verifier::spinoff_prover]
#[verifier::rlimit(100)]
pub proof fn lemma_md_r_char(v: Seq<(Interval, Seq<OriginalRange>)>, x: i64)
    requires
        md_wf(v),
    ensures
        0 <= md_r(v, x) <= v.len(),
        forall|j: int| 0 <= j < md_r(v, x) ==> (#[trigger] v[j]).0.start <= x,
        forall|j: int| md_r(v, x) <= j < v.len() ==> (#[trigger] v[j]).0.start > x,
    decreases v.len(),
{
    if v.len() == 0 {
    } else {
        let n = v.len() as int;
        let v0 = v.drop_last();
        assert(forall|j: int| 0 <= j < n - 1 ==> #[trigger] v0[j] == v[j]);
        assert(md_wf(v0));
        lemma_md_r_char(v0, x);
        let r0 = md_r(v0, x);
        if v[n - 1].0.start <= x {
            if r0 < n - 1 {
                assert(v[r0].0.start > x);
                lemma_md_order_pair(v, r0, n - 1);
                assert(false);
            }
            assert(md_r(v, x) == n);
            assert forall|j: int| 0 <= j < n implies (#[trigger] v[j]).0.start <= x by {
                if j < n - 1 {
                    assert(v[j] == v0[j]);
                }
            }
        } else {
            assert(md_r(v, x) == r0);
            assert forall|j: int| 0 <= j < r0 implies (#[trigger] v[j]).0.start <= x by {
                assert(v[j] == v0[j]);
            }
            assert forall|j: int| r0 <= j < n implies (#[trigger] v[j]).0.start > x by {
                if j < n - 1 {
                    assert(v[j] == v0[j]);
                }
            }
        }
    }
}

pub proof fn lemma_md_q_le_r(v: Seq<(Interval, Seq<OriginalRange>)>, rng: Interval)
    requires
        md_wf(v),
        ival_valid(rng),
    ensures
        md_q(v, rng.start) <= md_r(v, rng.end),
{
    lemma_md_q_char(v, rng.start);
    lemma_md_r_char(v, rng.end);
    let q = md_q(v, rng.start);
    let r = md_r(v, rng.end);
    if q > r {
        assert(v[r].0.end < rng.start);
        assert(v[r].0.start > rng.end);
        assert(false);
    }
}

pub proof fn lemma_orgs_order(os: Seq<OriginalRange>, i: int, j: int)
    requires
        orgs_wf(os),
        0 <= i <= j < os.len(),
    ensures
        os[i].range.start <= os[j].range.start,
    decreases j - i,
{
    if i < j {
        lemma_orgs_order(os, i, j - 1);
    }
}

#[verifier::spinoff_prover]
#[verifier::rlimit(100)]
pub proof fn lemma_org_insert_props(s: Seq<OriginalRange>, x: OriginalRange)
    requires
        orgs_wf(s),
        ival_valid(x.range),
    ensures
        orgs_wf(org_insert(s, x)),
        org_insert(s, x).len() == s.len() + 1,
        forall|k: int|
            0 <= k < org_insert(s, x).len() ==> org_insert(s, x)[k] == x || exists|j: int|
                0 <= j < s.len() && #[trigger] org_insert(s, x)[k] == s[j],
    decreases s.len(),
{
    if s.len() == 0 {
    } else if s[0].range.start <= x.range.start {
        let rest = s.drop_first();
        assert(orgs_wf(rest));
        lemma_org_insert_props(rest, x);
        let res = seq![s[0]] + org_insert(rest, x);
        assert(org_insert(s, x) == res);
        let inner = org_insert(rest, x);
        // the head keeps its order against the new second element
        assert(res[1] == inner[0]);
        if inner[0] == x {
            assert(s[0].range.start <= res[1].range.start);
        } else {
            let j = choose|j: int| 0 <= j < rest.len() && inner[0] == rest[j];
            lemma_orgs_order(s, 0, j + 1);
            assert(s[0].range.start <= res[1].range.start);
        }
        assert forall|k: int| 0 <= k < res.len() implies res[k] == x || exists|j: int|
            0 <= j < s.len() && #[trigger] res[k] == s[j] by {
            if k == 0 {
                assert(res[0] == s[0]);
            } else if !(res[k] == x) {
                let j = choose|j: int| 0 <= j < rest.len() && inner[k - 1] == rest[j];
                assert(res[k] == s[j + 1]);
            }
        }
        assert forall|i: int| 0 <= i < res.len() - 1 implies (#[trigger] res[i]).range.start <= res[
            i + 1].range.start by {}
        assert(orgs_wf(res));
    } else {
        let res = seq![x] + s;
        assert(org_insert(s, x) == res);
        assert(orgs_wf(res));
    }
}

#[verifier::spinoff_prover]
#[verifier::rlimit(100)]
pub proof fn lemma_org_sort_props(s: Seq<OriginalRange>)
    requires
        forall|i: int| 0 <= i < s.len() ==> ival_valid((#[trigger] s[i]).range),
    ensures
        orgs_wf(org_sort(s)),
        org_sort(s).len() == s.len(),
        forall|k: int|
            0 <= k < org_sort(s).len() ==> exists|j: int|
                0 <= j < s.len() && #[trigger] org_sort(s)[k] == s[j],
    decreases s.len(),
{
    if s.len() == 0 {
    } else {
        let s0 = s.drop_last();
        lemma_org_sort_props(s0);
        lemma_org_insert_props(org_sort(s0), s.last());
        let res = org_sort(s);
        assert forall|k: int| 0 <= k < res.len() implies exists|j: int|
            0 <= j < s.len() && #[trigger] res[k] == s[j] by {
            if res[k] == s.last() {
                assert(res[k] == s[s.len() - 1]);
            } else {
                let t = choose|t: int| 0 <= t < org_sort(s0).len() && res[k] == org_sort(s0)[t];
                let j = choose|j: int| 0 <= j < s0.len() && org_sort(s0)[t] == s0[j];
                assert(res[k] == s[j]);
            }
        }
    }
}

#[verifier::spinoff_prover]
#[verifier::rlimit(100)]
pub proof fn lemma_org_coal_props(acc: OriginalRange, rest: Seq<OriginalRange>)
    requires
        ival_valid(acc.range),
        forall|i: int| 0 <= i < rest.len() ==> ival_valid((#[trigger] rest[i]).range),
        forall|i: int|
            0 <= i < rest.len() - 1 ==> (#[trigger] rest[i]).range.start <= rest[i + 1].range.start,
        rest.len() > 0 ==> acc.range.start <= rest[0].range.start,
    ensures
        org_coal(acc, rest).len() > 0,
        orgs_wf(org_coal(acc, rest)),
        org_coal(acc, rest)[0].range.start == acc.range.start,
    decreases rest.len(),
{
    if rest.len() == 0 {
    } else {
        let nx = rest[0];
        let rest1 = rest.drop_first();
        assert(forall|i: int|
            0 <= i < rest1.len() - 1 ==> (#[trigger] rest1[i]).range.start <= rest1[i
                + 1].range.start);
        if acc.meta == nx.meta && acc.range.end >= nx.range.start {
            let acc2 = OriginalRange {
                range: Interval { start: acc.range.start, end: imax(acc.range.end, nx.range.end) },
                meta: acc.meta,
            };
            lemma_org_coal_props(acc2, rest1);
        } else {
            lemma_org_coal_props(nx, rest1);
            let res = seq![acc] + org_coal(nx, rest1);
            assert(org_coal(acc, rest) == res);
            assert(res[1].range.start == nx.range.start);
            assert(orgs_wf(res));
        }
    }
}

#[verifier::spinoff_prover]
#[verifier::rlimit(100)]
pub proof fn lemma_org_norm_props(s: Seq<OriginalRange>)
    requires
        forall|i: int| 0 <= i < s.len() ==> ival_valid((#[trigger] s[i]).range),
        s.len() > 0,
    ensures
        org_norm(s).len() > 0,
        orgs_wf(org_norm(s)),
{
    reveal(org_norm);
    lemma_org_sort_props(s);
    let t = org_sort(s);
    assert(ival_valid(t[0].range));
    let rest = t.drop_first();
    assert forall|i: int| 0 <= i < rest.len() implies ival_valid((#[trigger] rest[i]).range) by {
        assert(rest[i] == t[i + 1]);
    }
    assert forall|i: int| 0 <= i < rest.len() - 1 implies (#[trigger] rest[i]).range.start <= rest[
        i + 1].range.start by {
        assert(rest[i] == t[i + 1] && rest[i + 1] == t[i + 2]);
    }
    if rest.len() > 0 {
        assert(rest[0] == t[1]);
    }
    lemma_org_coal_props(t[0], rest);
}

#[verifier::spinoff_prover]
#[verifier::rlimit(100)]
pub proof fn lemma_orgs_concat_valid(run: Seq<(Interval, Seq<OriginalRange>)>)
    requires
        forall|i: int| 0 <= i < run.len() ==> orgs_wf((#[trigger] run[i]).1),
    ensures
        forall|k: int|
            0 <= k < orgs_concat(run).len() ==> ival_valid(
                (#[trigger] orgs_concat(run)[k]).range,
            ),
    decreases run.len(),
{
    if run.len() == 0 {
    } else {
        let r0 = run.drop_last();
        assert(forall|i: int| 0 <= i < r0.len() ==> orgs_wf((#[trigger] r0[i]).1));
        lemma_orgs_concat_valid(r0);
        let os = run[run.len() - 1].1;
        assert(orgs_wf(os));
        let res = orgs_concat(run);
        let prev = orgs_concat(r0);
        assert(res == prev + os);
        assert forall|k: int| 0 <= k < res.len() implies ival_valid((#[trigger] res[k]).range) by {
            if k < prev.len() {
                assert(res[k] == prev[k]);
            } else {
                assert(res[k] == os[k - prev.len()]);
            }
        }
    }
}

/// The normalized original list of the element that `add` inserts is
/// itself well-formed and non-empty.
pub proof fn lemma_md_add_orgs(
    v: Seq<(Interval, Seq<OriginalRange>)>,
    q: int,
    r: int,
    rng: Interval,
    meta: u64,
)
    requires
        md_wf(v),
        ival_valid(rng),
        0 <= q <= r <= v.len(),
    ensures
        orgs_wf(
            org_norm(orgs_concat(v.subrange(q, r)).push(OriginalRange { range: rng, meta })),
        ),
        org_norm(orgs_concat(v.subrange(q, r)).push(OriginalRange { range: rng, meta })).len()
            > 0,
{
    let run = v.subrange(q, r);
    assert(forall|i: int| 0 <= i < run.len() ==> orgs_wf((#[trigger] run[i]).1));
    let all = orgs_concat(run).push(OriginalRange { range: rng, meta });
    lemma_orgs_concat_valid(run);
    assert(forall|k: int| 0 <= k < all.len() ==> ival_valid((#[trigger] all[k]).range));
    lemma_org_norm_props(all);
}

/// Splicing one well-formed element over the run `[q, r)` keeps the
/// whole sequence well-formed, provided it clears its neighbours.
#[verifier::spinoff_prover]
#[verifier::rlimit(100)]
pub proof fn lemma_md_splice_wf(
    v: Seq<(Interval, Seq<OriginalRange>)>,
    q: int,
    r: int,
    mid: (Interval, Seq<OriginalRange>),
)
    requires
        md_wf(v),
        0 <= q <= r <= v.len(),
        ival_valid(mid.0),
        orgs_wf(mid.1),
        mid.1.len() > 0,
        q > 0 ==> v[q - 1].0.end < mid.0.start,
        r < v.len() ==> v[r].0.start > mid.0.end,
    ensures
        md_wf(v.take(q) + seq![mid] + v.skip(r)),
        (v.take(q) + seq![mid] + v.skip(r)).len() == v.len() - (r - q) + 1,
{
    let res = v.take(q) + seq![mid] + v.skip(r);
    assert(forall|j: int| 0 <= j < q ==> #[trigger] res[j] == v[j]);
    assert(res[q] == mid);
    assert(forall|j: int| q < j < res.len() ==> #[trigger] res[j] == v[j - q - 1 + r]);
    assert forall|i: int| 0 <= i < res.len() - 1 implies (#[trigger] res[i]).0.end < res[i
        + 1].0.start by {}
    assert(md_wf(res));
}

/// `add` preserves the invariant.
#[verifier::spinoff_prover]
#[verifier::rlimit(100)]
pub proof fn lemma_md_add_wf(v: Seq<(Interval, Seq<OriginalRange>)>, rng: Interval, meta: u64)
    requires
        md_wf(v),
        ival_valid(rng),
    ensures
        md_wf(md_add(v, rng, meta)),
        md_add(v, rng, meta).len() == v.len() - (md_r(v, rng.end) - md_q(v, rng.start)) + 1,
{
    lemma_md_q_char(v, rng.start);
    lemma_md_r_char(v, rng.end);
    lemma_md_q_le_r(v, rng);
    let q = md_q(v, rng.start);
    let r = md_r(v, rng.end);
    let lo = if q < r {
        imin(rng.start, v[q].0.start)
    } else {
        rng.start
    };
    let hi = if q < r {
        imax(rng.end, v[r - 1].0.end)
    } else {
        rng.end
    };
    let all = orgs_concat(v.subrange(q, r)).push(OriginalRange { range: rng, meta });
    lemma_md_add_orgs(v, q, r, rng, meta);
    let mid = (Interval { start: lo, end: hi }, org_norm(all));
    assert(lo <= rng.start && rng.end <= hi);
    assert(q > 0 ==> v[q - 1].0.end < mid.0.start) by {
        if q > 0 {
            assert(v[q - 1].0.end < rng.start);
            if q < r {
                assert(v[q - 1].0.end < v[q].0.start);
            }
        }
    }
    assert(r < v.len() ==> v[r].0.start > mid.0.end) by {
        if r < v.len() {
            assert(v[r].0.start > rng.end);
            if q < r {
                assert(v[r - 1].0.end < v[r].0.start);
            }
        }
    }
    lemma_md_splice_wf(v, q, r, mid);
    assert(md_add(v, rng, meta) == v.take(q) + seq![mid] + v.skip(r));
}

#[verifier::spinoff_prover]
#[verifier::rlimit(100)]
pub proof fn lemma_orgs_keep_wf(os: Seq<OriginalRange>, rng: Interval)
    requires
        orgs_wf(os),
    ensures
        orgs_wf(orgs_keep(os, rng)),
        orgs_keep(os, rng).len() > 0 ==> os.len() > 0 && orgs_keep(os, rng).last().range.start
            <= os.last().range.start,
    decreases os.len(),
{
    if os.len() == 0 {
    } else {
        let os0 = os.drop_last();
        assert(orgs_wf(os0));
        lemma_orgs_keep_wf(os0, rng);
        let o = os.last();
        let kept0 = orgs_keep(os0, rng);
        if rng.start <= o.range.start && o.range.end <= rng.end {
            if kept0.len() > 0 {
                lemma_orgs_order(os, os.len() - 2, os.len() - 1);
            }
        } else {
            if kept0.len() > 0 {
                lemma_orgs_order(os, os.len() - 2, os.len() - 1);
                assert(kept0.last().range.start <= os0.last().range.start);
            }
            assert(orgs_wf(kept0.push(o)));
        }
    }
}

/// `remove` preserves the invariant.
#[verifier::spinoff_prover]
#[verifier::rlimit(100)]
pub proof fn lemma_md_remove_wf(v: Seq<(Interval, Seq<OriginalRange>)>, rng: Interval)
    requires
        md_wf(v),
        ival_valid(rng),
    ensures
        md_wf(md_remove_all(v, rng)),
        forall|k: int|
            0 <= k < md_remove_all(v, rng).len() ==> exists|j: int|
                0 <= j < v.len() && v[j].0.start <= (#[trigger] md_remove_all(v, rng)[k]).0.start
                    && md_remove_all(v, rng)[k].0.end <= v[j].0.end,
    decreases v.len(),
{
    if v.len() == 0 {
    } else {
        let v0 = v.drop_last();
        let e = v.last();
        assert(md_wf(v0));
        lemma_md_remove_wf(v0, rng);
        lemma_orgs_keep_wf(e.1, rng);
        let prev = md_remove_all(v0, rng);
        let parts = md_remove_one(e, rng);
        let res = md_remove_all(v, rng);
        assert(res == prev + parts);
        assert forall|k: int| 0 <= k < parts.len() implies e.0.start <= (
        #[trigger] parts[k]).0.start && parts[k].0.end <= e.0.end && ival_valid(parts[k].0)
            && orgs_wf(parts[k].1) && parts[k].1.len() > 0 by {}
        assert(parts.len() == 2 ==> parts[0].0.end < parts[1].0.start);
        assert forall|k: int| 0 <= k < res.len() implies exists|j: int|
            0 <= j < v.len() && v[j].0.start <= (#[trigger] res[k]).0.start && res[k].0.end
                <= v[j].0.end by {
            if k < prev.len() {
                let j = choose|j: int|
                    0 <= j < v0.len() && v0[j].0.start <= prev[k].0.start && prev[k].0.end
                        <= v0[j].0.end;
                assert(v[j] == v0[j]);
            } else {
                assert(v[v.len() - 1].0.start <= res[k].0.start && res[k].0.end <= v[v.len()
                    - 1].0.end);
            }
        }
        assert forall|i: int| 0 <= i < res.len() - 1 implies (#[trigger] res[i]).0.end < res[i
            + 1].0.start by {
            if i + 1 < prev.len() {
            } else if i >= prev.len() {
                assert(parts.len() == 2);
                assert(res[i] == parts[0] && res[i + 1] == parts[1]);
            } else {
                let j = choose|j: int|
                    0 <= j < v0.len() && v0[j].0.start <= prev[i].0.start && prev[i].0.end
                        <= v0[j].0.end;
                if j < v0.len() - 1 {
                    lemma_md_order_pair(v0, j, v0.len() - 1);
                }
                assert(prev[i].0.end <= v0[v0.len() - 1].0.end);
                assert(v[v.len() - 2].0.end < v[v.len() - 1].0.start);
                assert(parts[0].0.start >= e.0.start);
            }
        }
        assert(md_wf(res));
    }
}


/// Where the stable insertion lands: after every entry whose start is not
/// greater.
#[verifier::spinoff_prover]
#[verifier::rlimit(100)]
pub proof fn lemma_org_insert_at(s: Seq<OriginalRange>, x: OriginalRange, p: int)
    requires
        0 <= p <= s.len(),
        forall|j: int| 0 <= j < p ==> (#[trigger] s[j]).range.start <= x.range.start,
        p < s.len() ==> s[p].range.start > x.range.start,
    ensures
        org_insert(s, x) =~= s.take(p) + seq![x] + s.skip(p),
    decreases s.len(),
{
    if s.len() == 0 {
    } else if s[0].range.start <= x.range.start {
        assert(p >= 1);
        let rest = s.drop_first();
        assert forall|j: int| 0 <= j < p - 1 implies (#[trigger] rest[j]).range.start
            <= x.range.start by {
            assert(rest[j] == s[j + 1]);
        }
        lemma_org_insert_at(rest, x, p - 1);
        assert(org_insert(s, x) == seq![s[0]] + org_insert(rest, x));
        assert(rest.take(p - 1) =~= s.take(p).drop_first());
        assert(rest.skip(p - 1) =~= s.skip(p));
    } else {
        assert(p == 0);
    }
}

// ---------------------------------------------------------------------------
// The executable set
// ---------------------------------------------------------------------------

/// The batch operation: each interval added in turn (without metadata).
pub open spec fn md_add_full(
    v: Seq<(Interval, Seq<OriginalRange>)>,
    rng: Interval,
    meta: u64,
) -> Seq<(Interval, Seq<OriginalRange>)> {
    if ival_valid(rng) {
        md_add(v, rng, meta)
    } else {
        v
    }
}

pub open spec fn md_extend(
    v: Seq<(Interval, Seq<OriginalRange>)>,
    rs: Seq<Interval>,
) -> Seq<(Interval, Seq<OriginalRange>)>
    decreases rs.len(),
{
    if rs.len() == 0 {
        v
    } else {
        md_extend(md_add_full(v, rs[0], 0), rs.drop_first())
    }
}

/// The surviving originals of one element, as a fresh vector.
fn filter_originals(os: &Vec<OriginalRange>, rng: Interval) -> (r: Vec<OriginalRange>)
    ensures
        r@ == orgs_keep(os@, rng),
{
    let n = os.len();
    let mut r: Vec<OriginalRange> = Vec::new();
    let mut t: usize = 0;
    while t < n
        invariant
            t <= n,
            n == os@.len(),
            r@ == orgs_keep(os@.take(t as int), rng),
        decreases n - t,
    {
        let o = os[t];
        proof {
            assert(os@.take(t + 1).drop_last() =~= os@.take(t as int));
            assert(os@.take(t + 1).last() == os@[t as int]);
        }
        if !(rng.start <= o.range.start && o.range.end <= rng.end) {
            r.push(o);
        }
        t += 1;
    }
    proof {
        assert(os@.take(n as int) =~= os@);
    }
    r
}

impl RangeSet {
    /// The mathematical value of the set.
    pub closed spec fn model(&self) -> Seq<(Interval, Seq<OriginalRange>)> {
        md_view(self.elements@)
    }

    /// The invariant every public operation preserves.
    pub open spec fn wf(&self) -> bool {
        md_wf(self.model())
    }

    /// The empty set.
    pub fn new() -> (s: RangeSet)
        ensures
            s.wf(),
            s.model() == Seq::<(Interval, Seq<OriginalRange>)>::empty(),
    {
        let s = RangeSet { elements: Vec::new() };
        proof {
            assert(s.model() =~= Seq::<(Interval, Seq<OriginalRange>)>::empty());
        }
        s
    }

    /// The stored elements, each with its merged interval and originals.
    pub fn elements(&self) -> (r: &Vec<MergedRange>)
        ensures
            md_view(r@) == self.model(),
    {
        &self.elements
    }

    /// The normalized intervals: sorted, merged, mutually disjoint.
    pub fn as_slice(&self) -> (r: Vec<Interval>)
        ensures
            r@.len() == self.model().len(),
            forall|i: int| 0 <= i < r@.len() ==> r@[i] == (#[trigger] self.model()[i]).0,
    {
        let n = self.elements.len();
        let mut r: Vec<Interval> = Vec::new();
        let mut i: usize = 0;
        while i < n
            invariant
                i <= n,
                n == self.elements@.len(),
                r@.len() == i,
                forall|j: int| 0 <= j < i ==> r@[j] == (#[trigger] self.model()[j]).0,
            decreases n - i,
        {
            r.push(self.elements[i].merged);
            i += 1;
        }
        r
    }

    /// The normalized intervals, for iteration in order.
    pub fn iter(&self) -> (r: Vec<Interval>)
        ensures
            r@.len() == self.model().len(),
            forall|i: int| 0 <= i < r@.len() ==> r@[i] == (#[trigger] self.model()[i]).0,
    {
        self.as_slice()
    }

    pub fn is_empty(&self) -> (b: bool)
        ensures
            b == (self.model().len() == 0),
    {
        self.elements.is_empty()
    }

    pub fn len(&self) -> (n: usize)
        ensures
            n == self.model().len(),
    {
        self.elements.len()
    }

    pub fn clear(&mut self)
        ensures
            final(self).wf(),
            final(self).model() == Seq::<(Interval, Seq<OriginalRange>)>::empty(),
    {
        self.elements.clear();
        proof {
            assert(self.model() =~= Seq::<(Interval, Seq<OriginalRange>)>::empty());
        }
    }

    /// Whether some stored interval holds the value.
    pub fn contains(&self, value: i64) -> (r: bool)
        requires
            self.wf(),
        ensures
            r == md_covered(self.model(), value as int),
    {
        let ghost v = self.model();
        let mut lo: usize = 0;
        let mut hi: usize = self.elements.len();
        while lo < hi
            invariant
                v == self.model(),
                md_wf(v),
                lo <= hi <= v.len(),
                v.len() == self.elements@.len(),
                forall|j: int|
                    0 <= j < lo ==> !((#[trigger] v[j]).0.start <= value as int && (value as int) < v[j].0.end),
                forall|j: int|
                    hi <= j < v.len() ==> !((#[trigger] v[j]).0.start <= value as int && (
                    value as int) < v[j].0.end),
            decreases hi - lo,
        {
            let mid = lo + (hi - lo) / 2;
            let e = &self.elements[mid];
            if e.merged.end <= value {
                proof {
                    assert forall|j: int| 0 <= j < mid + 1 implies !((#[trigger] v[j]).0.start <= value as int && (value as int) < v[j].0.end) by {
                        if j < mid {
                            lemma_md_order_pair(v, j, mid as int);
                        }
                    }
                }
                lo = mid + 1;
            } else if e.merged.start > value {
                proof {
                    assert forall|j: int| mid <= j < v.len() implies !((#[trigger] v[j]).0.start <= value as int && (value as int) < v[j].0.end) by {
                        if mid < j {
                            lemma_md_order_pair(v, mid as int, j);
                        }
                    }
                }
                hi = mid;
            } else {
                proof {
                    assert(v[mid as int].0.start <= value as int && (value as int) < v[mid as int].0.end);
                }
                return true;
            }
        }
        false
    }

    /// Sort the collected originals by start and coalesce adjacent or
    /// overlapping entries of equal metadata.
    fn merge_originals(origs: Vec<OriginalRange>) -> (res: Vec<OriginalRange>)
        ensures
            res@ == org_norm(origs@),
    {
        let n = origs.len();
        let mut sorted: Vec<OriginalRange> = Vec::new();
        let mut i: usize = 0;
        while i < n
            invariant
                i <= n,
                n == origs@.len(),
                sorted@ == org_sort(origs@.take(i as int)),
                sorted@.len() == i,
            decreases n - i,
        {
            let x = origs[i];
            let mut pos: usize = 0;
            while pos < sorted.len() && sorted[pos].range.start <= x.range.start
                invariant
                    pos <= sorted@.len(),
                    forall|j: int|
                        0 <= j < pos ==> (#[trigger] sorted@[j]).range.start <= x.range.start,
                decreases sorted@.len() - pos,
            {
                pos += 1;
            }
            proof {
                lemma_org_insert_at(sorted@, x, pos as int);
                assert(origs@.take(i + 1).drop_last() =~= origs@.take(i as int));
                assert(origs@.take(i + 1).last() == origs@[i as int]);
            }
            sorted.insert(pos, x);
            proof {
                assert(sorted@ =~= org_sort(origs@.take(i + 1)));
            }
            i += 1;
        }
        proof {
            assert(origs@.take(n as int) =~= origs@);
        }
        let sn = sorted.len();
        let mut res: Vec<OriginalRange> = Vec::new();
        if sn == 0 {
            proof {
                reveal(org_norm);
            }
            return res;
        }
        let ghost ss = sorted@;
        let mut cur = sorted[0];
        let mut t: usize = 1;
        proof {
            assert(ss.skip(1) =~= ss.drop_first());
        }
        while t < sn
            invariant
                1 <= t <= sn,
                sn == ss.len(),
                sorted@ == ss,
                org_coal(ss[0], ss.drop_first()) == res@ + org_coal(cur, ss.skip(t as int)),
            decreases sn - t,
        {
            let nx = sorted[t];
            proof {
                assert(ss.skip(t as int)[0] == ss[t as int]);
                assert(ss.skip(t as int).drop_first() =~= ss.skip(t + 1));
            }
            if cur.meta == nx.meta && cur.range.end >= nx.range.start {
                let newend = if cur.range.end <= nx.range.end {
                    nx.range.end
                } else {
                    cur.range.end
                };
                cur = OriginalRange {
                    range: Interval { start: cur.range.start, end: newend },
                    meta: cur.meta,
                };
            } else {
                res.push(cur);
                cur = nx;
            }
            t += 1;
        }
        res.push(cur);
        proof {
            reveal(org_norm);
            assert(ss.skip(sn as int) =~= Seq::<OriginalRange>::empty());
            assert(org_coal(cur, ss.skip(sn as int)) == seq![cur]);
            assert(res@ == org_norm(origs@));
        }
        res
    }
}


/// A fresh copy of an original list (entries are plain values).
fn copy_originals(os: &Vec<OriginalRange>) -> (r: Vec<OriginalRange>)
    ensures
        r@ == os@,
{
    let n = os.len();
    let mut r: Vec<OriginalRange> = Vec::new();
    let mut t: usize = 0;
    while t < n
        invariant
            t <= n,
            n == os@.len(),
            r@ == os@.take(t as int),
        decreases n - t,
    {
        r.push(os[t]);
        proof {
            assert(r@ =~= os@.take(t + 1));
        }
        t += 1;
    }
    proof {
        assert(os@.take(n as int) =~= os@);
    }
    r
}

impl RangeSet {
    /// Add an interval with its metadata. Overlapping or touching stored
    /// elements are merged into one, whose original list is re-sorted and
    /// coalesced. An empty or inverted interval is a silent no-op.
    #[verifier::spinoff_prover]
    #[verifier::rlimit(100)]
    pub fn add(&mut self, range: Interval, meta: u64)
        requires
            old(self).wf(),
        ensures
            final(self).wf(),
            !ival_valid(range) ==> final(self).model() == old(self).model(),
            ival_valid(range) ==> final(self).model() == md_add(old(self).model(), range, meta),
    {
        if !(range.start < range.end) {
            return ;
        }
        let ghost v = self.model();
        proof {
            lemma_md_q_char(v, range.start);
            lemma_md_r_char(v, range.end);
            lemma_md_q_le_r(v, range);
            lemma_md_add_wf(v, range, meta);
        }
        let n = self.elements.len();
        let mut q: usize = 0;
        while q < n && self.elements[q].merged.end < range.start
            invariant
                v == self.model(),
                q <= n,
                n == v.len(),
                n == self.elements@.len(),
                forall|j: int| 0 <= j < q ==> (#[trigger] v[j]).0.end < range.start,
            decreases n - q,
        {
            q += 1;
        }
        proof {
            let mq = md_q(v, range.start);
            if (q as int) < mq {
                assert(v[q as int].0.end < range.start);
                assert(false);
            }
            if (q as int) > mq {
                assert(v[mq].0.end < range.start);
                assert(v[mq].0.end >= range.start);
                assert(false);
            }
            assert(q as int == mq);
        }
        let mut r: usize = q;
        while r < n && self.elements[r].merged.start <= range.end
            invariant
                v == self.model(),
                q <= r <= n,
                n == v.len(),
                n == self.elements@.len(),
                forall|j: int| q <= j < r ==> (#[trigger] v[j]).0.start <= range.end,
            decreases n - r,
        {
            r += 1;
        }
        proof {
            let mq = md_q(v, range.start);
            let mr = md_r(v, range.end);
            if (r as int) < mr {
                assert(v[r as int].0.start <= range.end);
                assert(false);
            }
            if (r as int) > mr {
                assert(mr >= mq);
                assert(v[mr].0.start <= range.end);
                assert(v[mr].0.start > range.end);
                assert(false);
            }
            assert(r as int == mr);
        }
        let mut lo = range.start;
        let mut hi = range.end;
        if q < r {
            let s0 = self.elements[q].merged.start;
            if s0 < lo {
                lo = s0;
            }
            let e1 = self.elements[r - 1].merged.end;
            if e1 > hi {
                hi = e1;
            }
        }
        let mut all: Vec<OriginalRange> = Vec::new();
        let mut j: usize = q;
        proof {
            assert(v.subrange(q as int, q as int) =~= Seq::<(Interval, Seq<OriginalRange>)>::empty());
        }
        while j < r
            invariant
                v == self.model(),
                q <= j <= r <= n,
                n == v.len(),
                n == self.elements@.len(),
                all@ == orgs_concat(v.subrange(q as int, j as int)),
            decreases r - j,
        {
            let m = self.elements[j].originals.len();
            let mut t: usize = 0;
            while t < m
                invariant
                    v == self.model(),
                    q <= j < r <= n,
                    n == v.len(),
                    n == self.elements@.len(),
                    t <= m,
                    m == v[j as int].1.len(),
                    all@ == orgs_concat(v.subrange(q as int, j as int)) + v[j as int].1.take(
                        t as int,
                    ),
                decreases m - t,
            {
                all.push(self.elements[j].originals[t]);
                proof {
                    assert(v[j as int].1.take(t + 1) =~= v[j as int].1.take(t as int).push(
                        v[j as int].1[t as int],
                    ));
                }
                t += 1;
            }
            proof {
                assert(v[j as int].1.take(m as int) =~= v[j as int].1);
                assert(v.subrange(q as int, j + 1).drop_last() =~= v.subrange(q as int, j as int));
                assert(v.subrange(q as int, j + 1).last() == v[j as int]);
                assert(all@ =~= orgs_concat(v.subrange(q as int, j + 1)));
            }
            j += 1;
        }
        all.push(OriginalRange { range, meta });
        let ghost allg = all@;
        let norm = Self::merge_originals(all);
        let ghost els = self.elements@;
        let mut rem = r - q;
        proof {
            assert(els.take(q as int) + els.skip(q as int) =~= els);
        }
        while rem > 0
            invariant
                rem <= r - q,
                q <= r <= els.len(),
                self.elements@ == els.take(q as int) + els.skip((r - rem) as int),
            decreases rem,
        {
            proof {
                assert(self.elements@.len() == q + els.len() - (r - rem));
            }
            self.elements.remove(q);
            proof {
                assert(self.elements@ =~= els.take(q as int) + els.skip((r - rem + 1) as int));
            }
            rem -= 1;
        }
        let newm = MergedRange { merged: Interval { start: lo, end: hi }, originals: norm };
        self.elements.insert(q, newm);
        proof {
            assert(self.elements@ =~= els.take(q as int) + seq![newm] + els.skip(r as int));
            assert forall|k: int| 0 <= k < v.len() implies #[trigger] v[k] == mr_view(els[k]) by {}
            assert(self.model() =~= v.take(q as int) + seq![
                (Interval { start: lo, end: hi }, norm@),
            ] + v.skip(r as int));
            assert(norm@ == org_norm(allg));
            assert(allg == orgs_concat(v.subrange(q as int, r as int)).push(
                OriginalRange { range, meta },
            ));
            assert(self.model() =~= md_add(v, range, meta));
        }
    }

    /// Add an interval without metadata.
    pub fn add_range(&mut self, range: Interval)
        requires
            old(self).wf(),
        ensures
            final(self).wf(),
            !ival_valid(range) ==> final(self).model() == old(self).model(),
            ival_valid(range) ==> final(self).model() == md_add(old(self).model(), range, 0),
    {
        self.add(range, 0);
    }

    /// Add a batch of intervals, in order.
    pub fn extend(&mut self, ranges: Vec<Interval>)
        requires
            old(self).wf(),
        ensures
            final(self).wf(),
            final(self).model() == md_extend(old(self).model(), ranges@),
    {
        let ghost v0 = self.model();
        let n = ranges.len();
        proof {
            assert(ranges@.skip(0) =~= ranges@);
        }
        let mut i: usize = 0;
        while i < n
            invariant
                self.wf(),
                i <= n,
                n == ranges@.len(),
                md_extend(v0, ranges@) == md_extend(self.model(), ranges@.skip(i as int)),
            decreases n - i,
        {
            let ghost pre = self.model();
            proof {
                assert(ranges@.skip(i as int)[0] == ranges@[i as int]);
                assert(ranges@.skip(i as int).drop_first() =~= ranges@.skip(i + 1));
            }
            self.add_range(ranges[i]);
            proof {
                assert(md_extend(pre, ranges@.skip(i as int)) == md_extend(
                    md_add_full(pre, ranges@[i as int], 0),
                    ranges@.skip(i + 1),
                ));
            }
            i += 1;
        }
        proof {
            assert(ranges@.skip(n as int) =~= Seq::<Interval>::empty());
        }
    }

    /// Remove the intersection of `range` from every stored element,
    /// splitting an element that strictly contains it; originals fully
    /// inside the removed interval are dropped, and an element whose
    /// originals are all dropped disappears. An empty or inverted
    /// interval is a silent no-op.
    #[verifier::spinoff_prover]
    #[verifier::rlimit(100)]
    pub fn remove_range(&mut self, range: Interval)
        requires
            old(self).wf(),
        ensures
            final(self).wf(),
            !ival_valid(range) ==> final(self).model() == old(self).model(),
            ival_valid(range) ==> final(self).model() == md_remove_all(old(self).model(), range),
    {
        if !(range.start < range.end) {
            return ;
        }
        let ghost v = self.model();
        proof {
            lemma_md_remove_wf(v, range);
        }
        let n = self.elements.len();
        let mut out: Vec<MergedRange> = Vec::new();
        proof {
            assert(md_view(out@) =~= md_remove_all(
                v.take(0),
                range,
            ));
        }
        let mut i: usize = 0;
        while i < n
            invariant
                v == self.model(),
                i <= n,
                n == v.len(),
                n == self.elements@.len(),
                ival_valid(range),
                md_view(out@) == md_remove_all(v.take(i as int), range),
            decreases n - i,
        {
            proof {
                assert(v.take(i + 1).drop_last() =~= v.take(i as int));
                assert(v.take(i + 1).last() == v[i as int]);
            }
            let iv = self.elements[i].merged;
            if iv.end <= range.start || iv.start >= range.end {
                let co = copy_originals(&self.elements[i].originals);
                out.push(MergedRange { merged: iv, originals: co });
                proof {
                    assert(mr_view(out@.last()) == v[i as int]);
                    assert(md_view(out@) =~= md_remove_all(v.take(i + 1), range));
                }
            } else {
                let fos = filter_originals(&self.elements[i].originals, range);
                if fos.len() > 0 {
                    let lend = if iv.end <= range.start {
                        iv.end
                    } else {
                        range.start
                    };
                    let rstart = if iv.start >= range.end {
                        iv.start
                    } else {
                        range.end
                    };
                    let lv = iv.start < lend;
                    let rv = rstart < iv.end;
                    if lv && rv {
                        let fos2 = filter_originals(&self.elements[i].originals, range);
                        out.push(
                            MergedRange {
                                merged: Interval { start: iv.start, end: lend },
                                originals: fos,
                            },
                        );
                        out.push(
                            MergedRange {
                                merged: Interval { start: rstart, end: iv.end },
                                originals: fos2,
                            },
                        );
                    } else if lv {
                        out.push(
                            MergedRange {
                                merged: Interval { start: iv.start, end: lend },
                                originals: fos,
                            },
                        );
                    } else if rv {
                        out.push(
                            MergedRange {
                                merged: Interval { start: rstart, end: iv.end },
                                originals: fos,
                            },
                        );
                    }
                }
                proof {
                    assert(md_view(out@) =~= md_remove_all(v.take(i + 1), range));
                }
            }
            i += 1;
        }
        proof {
            assert(v.take(n as int) =~= v);
        }
        self.elements = out;
        proof {
            assert(self.model() == md_remove_all(v, range));
        }
    }
}

} // verus!
