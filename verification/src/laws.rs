use vstd::prelude::*;

use crate::geometry::{imax, imin, ival_valid, overlap, RangeEntry};
use crate::model::{
    absorbs, carve_all, covered, lemma_carve_all_props, lemma_insert_merge, lemma_order_pair, merged_entry,
    merged_hi, merged_lo, num_lt, part_wf, seq_wf, spec_add,
};

verus! {

// ---------------------------------------------------------------------------
// The absorbed run, derived at the specification level
// ---------------------------------------------------------------------------

/// The first absorbed index (the length when none is).
spec fn run_q(cs: Seq<RangeEntry>, new: RangeEntry) -> int
    decreases cs.len(),
{
    if cs.len() == 0 {
        0
    } else if absorbs(cs[0], new) {
        0
    } else {
        1 + run_q(cs.drop_first(), new)
    }
}

/// One past the last absorbed index (zero when none is).
spec fn run_r(cs: Seq<RangeEntry>, new: RangeEntry) -> int
    decreases cs.len(),
{
    if cs.len() == 0 {
        0
    } else if absorbs(cs.last(), new) {
        cs.len() as int
    } else {
        run_r(cs.drop_last(), new)
    }
}

#[verifier::spinoff_prover]
#[verifier::rlimit(100)]
proof fn lemma_run_q_char(cs: Seq<RangeEntry>, new: RangeEntry)
    ensures
        0 <= run_q(cs, new) <= cs.len(),
        forall|j: int| 0 <= j < run_q(cs, new) ==> !absorbs(#[trigger] cs[j], new),
        run_q(cs, new) < cs.len() ==> absorbs(cs[run_q(cs, new)], new),
    decreases cs.len(),
{
    if cs.len() == 0 {
    } else if absorbs(cs[0], new) {
    } else {
        let t = cs.drop_first();
        lemma_run_q_char(t, new);
        assert forall|j: int| 0 <= j < run_q(cs, new) implies !absorbs(#[trigger] cs[j], new) by {
            if j > 0 {
                assert(cs[j] == t[j - 1]);
            }
        }
        if run_q(cs, new) < cs.len() {
            assert(cs[run_q(cs, new)] == t[run_q(t, new)]);
        }
    }
}

#[verifier::spinoff_prover]
#[verifier::rlimit(100)]
proof fn lemma_run_r_char(cs: Seq<RangeEntry>, new: RangeEntry)
    ensures
        0 <= run_r(cs, new) <= cs.len(),
        forall|j: int| run_r(cs, new) <= j < cs.len() ==> !absorbs(#[trigger] cs[j], new),
        run_r(cs, new) > 0 ==> absorbs(cs[run_r(cs, new) - 1], new),
    decreases cs.len(),
{
    if cs.len() == 0 {
    } else if absorbs(cs.last(), new) {
    } else {
        let t = cs.drop_last();
        lemma_run_r_char(t, new);
        assert forall|j: int| run_r(cs, new) <= j < cs.len() implies !absorbs(
            #[trigger] cs[j],
            new,
        ) by {
            if j < cs.len() - 1 {
                assert(cs[j] == t[j]);
            }
        }
        if run_r(cs, new) > 0 {
            assert(cs[run_r(cs, new) - 1] == t[run_r(t, new) - 1]);
        }
    }
}

/// In a carved sequence the absorbed elements form one contiguous block.
#[verifier::spinoff_prover]
#[verifier::rlimit(100)]
proof fn lemma_absorb_contiguous(cs: Seq<RangeEntry>, new: RangeEntry, i: int, t: int, j: int)
    requires
        seq_wf(cs),
        ival_valid(new.range),
        forall|k: int|
            0 <= k < cs.len() && (#[trigger] cs[k]).kind != new.kind ==> !overlap(
                cs[k].range,
                new.range,
            ),
        0 <= i < t < j < cs.len(),
        absorbs(cs[i], new),
        absorbs(cs[j], new),
    ensures
        absorbs(cs[t], new),
{
    lemma_order_pair(cs, i, t);
    lemma_order_pair(cs, t, j);
    assert(cs[t].range.end > cs[t].range.start);
    assert(cs[t].range.end > cs[i].range.end >= new.range.start);
    assert(cs[t].range.start < cs[j].range.start <= new.range.end);
    if cs[t].kind != new.kind {
        assert(!overlap(cs[t].range, new.range));
        assert(false);
    }
}

/// In a sorted sequence, `num_lt` is the usual split point.
#[verifier::spinoff_prover]
#[verifier::rlimit(100)]
proof fn lemma_num_lt_sorted(s: Seq<RangeEntry>, x: i64)
    requires
        part_wf(s),
    ensures
        0 <= num_lt(s, x) <= s.len(),
        forall|j: int| 0 <= j < num_lt(s, x) ==> (#[trigger] s[j]).range.start < x,
        forall|j: int| num_lt(s, x) <= j < s.len() ==> (#[trigger] s[j]).range.start >= x,
    decreases s.len(),
{
    if s.len() == 0 {
    } else {
        let n = s.len() as int;
        let s0 = s.drop_last();
        assert(forall|j: int| 0 <= j < n - 1 ==> #[trigger] s0[j] == s[j]);
        assert(part_wf(s0));
        lemma_num_lt_sorted(s0, x);
        let c0 = num_lt(s0, x);
        if s[n - 1].range.start < x {
            if c0 < n - 1 {
                assert(s[c0].range.start >= x);
                lemma_order_pair(s, c0, n - 1);
                assert(false);
            }
            assert(num_lt(s, x) == n);
            assert forall|j: int| 0 <= j < n implies (#[trigger] s[j]).range.start < x by {
                if j < n - 1 {
                    lemma_order_pair(s, j, n - 1);
                }
            }
        } else {
            assert(num_lt(s, x) == c0);
            assert forall|j: int| 0 <= j < c0 implies (#[trigger] s[j]).range.start < x by {
                assert(s[j] == s0[j]);
            }
            assert forall|j: int| c0 <= j < n implies (#[trigger] s[j]).range.start >= x by {
                if j < n - 1 {
                    assert(s[j] == s0[j]);
                }
            }
        }
    }
}

/// The absorbed run of a carved sequence: block bounds with the
/// characterisation `lemma_insert_merge` needs.
#[verifier::spinoff_prover]
#[verifier::rlimit(100)]
proof fn lemma_spec_add_run(s: Seq<RangeEntry>, new: RangeEntry) -> (qr: (int, int))
    requires
        seq_wf(s),
        ival_valid(new.range),
    ensures
        ({
            let cs = carve_all(s, new);
            &&& 0 <= qr.0 <= qr.1 <= cs.len()
            &&& forall|j: int|
                0 <= j < cs.len() ==> (absorbs(#[trigger] cs[j], new) <==> qr.0 <= j < qr.1)
            &&& (qr.0 == qr.1 ==> (forall|j: int|
                0 <= j < qr.0 ==> (#[trigger] cs[j]).range.start < new.range.start) && (
            forall|j: int|
                qr.0 <= j < cs.len() ==> (#[trigger] cs[j]).range.start >= new.range.start))
        }),
{
    let cs = carve_all(s, new);
    lemma_carve_all_props(s, new);
    if exists|j: int| 0 <= j < cs.len() && absorbs(#[trigger] cs[j], new) {
        lemma_run_q_char(cs, new);
        lemma_run_r_char(cs, new);
        let w = choose|j: int| 0 <= j < cs.len() && absorbs(#[trigger] cs[j], new);
        let q = run_q(cs, new);
        let r = run_r(cs, new);
        assert(q < cs.len() && r > 0) by {
            assert(!(q == cs.len()) || !absorbs(cs[w], new));
            assert(!(r == 0) || !absorbs(cs[w], new));
        }
        assert(q <= r - 1) by {
            if q > r - 1 {
                assert(!absorbs(cs[q], new));
                assert(false);
            }
        }
        assert forall|j: int| 0 <= j < cs.len() implies (absorbs(#[trigger] cs[j], new) <==> q <= j
            < r) by {
            if q < j < r - 1 {
                lemma_absorb_contiguous(cs, new, q, j, r - 1);
            }
        }
        (q, r)
    } else {
        lemma_num_lt_sorted(cs, new.range.start);
        let p = num_lt(cs, new.range.start);
        (p, p)
    }
}

// ---------------------------------------------------------------------------
// Invariant preservation: the insertion model keeps the invariant
// ---------------------------------------------------------------------------

/// After an insertion the stored sequence is again sorted, mutually
/// disjoint, and has no two touching same-kinded neighbours. (For the
/// deletion model the same is `lemma_remove_all_swf`.)
#[verifier::spinoff_prover]
#[verifier::rlimit(100)]
pub proof fn lemma_add_preserves_invariant(s: Seq<RangeEntry>, new: RangeEntry)
    requires
        seq_wf(s),
        ival_valid(new.range),
    ensures
        seq_wf(spec_add(s, new)),
{
    let (q, r) = lemma_spec_add_run(s, new);
    lemma_carve_all_props(s, new);
    lemma_insert_merge(carve_all(s, new), new, q, r);
}


// ---------------------------------------------------------------------------
// Idempotence of merge
// ---------------------------------------------------------------------------

/// When every element either shares the incoming kind or stays clear of
/// the incoming range, the overwrite pass changes nothing.
#[verifier::spinoff_prover]
#[verifier::rlimit(100)]
proof fn lemma_carve_identity(t: Seq<RangeEntry>, new: RangeEntry)
    requires
        ival_valid(new.range),
        forall|j: int| 0 <= j < t.len() ==> ival_valid((#[trigger] t[j]).range),
        forall|j: int|
            0 <= j < t.len() ==> (#[trigger] t[j]).kind == new.kind || !overlap(
                t[j].range,
                new.range,
            ),
    ensures
        carve_all(t, new) =~= t,
    decreases t.len(),
{
    if t.len() == 0 {
    } else {
        let t0 = t.drop_last();
        assert(forall|j: int| 0 <= j < t0.len() ==> #[trigger] t0[j] == t[j]);
        lemma_carve_identity(t0, new);
        let e = t.last();
        if e.kind == new.kind {
        } else {
            crate::model::lemma_subtract_disjoint(e, new.range);
        }
        assert(carve_all(t, new) =~= t);
    }
}

/// Idempotence of merge: adding the same element twice produces exactly
/// the set that a single addition produces.
#[verifier::spinoff_prover]
#[verifier::rlimit(100)]
pub proof fn lemma_add_idempotent(s: Seq<RangeEntry>, e: RangeEntry)
    requires
        seq_wf(s),
        ival_valid(e.range),
    ensures
        spec_add(spec_add(s, e), e) == spec_add(s, e),
{
    let cs = carve_all(s, e);
    lemma_carve_all_props(s, e);
    let (q, r) = lemma_spec_add_run(s, e);
    lemma_insert_merge(cs, e, q, r);
    let m = merged_entry(cs, e);
    let lo = merged_lo(cs, e);
    let hi = merged_hi(cs, e);
    assert(lo <= e.range.start && e.range.end <= hi);
    let s1 = spec_add(s, e);
    assert(s1 =~= cs.take(q) + seq![m] + cs.skip(r));
    let n1 = s1.len() as int;
    assert(s1[q] == m);
    assert(forall|j: int| 0 <= j < q ==> #[trigger] s1[j] == cs[j]);
    assert(forall|j: int| q < j < n1 ==> #[trigger] s1[j] == cs[j - q - 1 + r]);

    // second carve changes nothing: every other element is disjoint from
    // the merged element, which contains the incoming range
    assert forall|j: int|
        0 <= j < n1 implies (#[trigger] s1[j]).kind == e.kind || !overlap(
        s1[j].range,
        e.range,
    ) by {
        if j < q {
            lemma_order_pair(s1, j, q);
            assert(s1[j].range.end <= s1[q].range.start == lo);
        } else if j > q {
            lemma_order_pair(s1, q, j);
            assert(s1[j].range.start >= s1[q].range.end == hi);
        }
    }
    lemma_carve_identity(s1, e);
    assert(carve_all(s1, e) == s1);

    // the merged element is the only absorbed one the second time
    assert forall|j: int| 0 <= j < n1 implies (absorbs(#[trigger] s1[j], e) <==> j == q) by {
        if j < q {
            lemma_order_pair(s1, j, q);
            if s1[j].kind == e.kind && absorbs(s1[j], e) {
                assert(s1[j].range.end >= e.range.start >= lo);
                assert(s1[j].range.end <= lo);
                assert(s1[j].range.end == lo == e.range.start);
                if j < q - 1 {
                    lemma_order_pair(s1, j, q - 1);
                    assert(false);
                } else {
                    assert(s1[q - 1].range.end == s1[q].range.start);
                    assert(s1[q - 1].kind != s1[q].kind);
                    assert(false);
                }
            }
        } else if j > q {
            lemma_order_pair(s1, q, j);
            if s1[j].kind == e.kind && absorbs(s1[j], e) {
                assert(s1[j].range.start <= e.range.end <= hi);
                assert(s1[j].range.start >= hi);
                assert(s1[j].range.start == hi == e.range.end);
                if j > q + 1 {
                    lemma_order_pair(s1, q + 1, j);
                    assert(false);
                } else {
                    assert(s1[q].range.end == s1[q + 1].range.start);
                    assert(s1[q].kind != s1[q + 1].kind);
                    assert(false);
                }
            }
        } else {
            assert(m.range.start == lo <= e.range.start <= e.range.end);
            assert(m.range.end == hi >= e.range.end >= e.range.start);
            assert(absorbs(m, e));
        }
    }
    lemma_insert_merge(s1, e, q, q + 1);
    let m2 = merged_entry(s1, e);
    assert(merged_lo(s1, e) == imin(e.range.start, s1[q].range.start));
    assert(merged_hi(s1, e) == imax(e.range.end, s1[q].range.end));
    assert(m2 == m);
    assert(spec_add(s1, e) =~= s1.take(q) + seq![m] + s1.skip(q + 1));
    assert(spec_add(s1, e) =~= s1);
}

// ---------------------------------------------------------------------------
// Order independence over a uniformly tagged set
// ---------------------------------------------------------------------------

/// Every element carries the same kind and overwrite flag.
pub open spec fn uniform(s: Seq<RangeEntry>, k: u64, w: bool) -> bool {
    forall|i: int|
        0 <= i < s.len() ==> (#[trigger] s[i]).kind == k && s[i].overwritable == w
}

/// One point of the insertion result over a uniformly tagged set: it is
/// covered exactly when the incoming interval holds it or the old set
/// covered it.
#[verifier::spinoff_prover]
#[verifier::rlimit(100)]
proof fn lemma_add_covered_point(
    s: Seq<RangeEntry>,
    new: RangeEntry,
    q: int,
    r: int,
    res: Seq<RangeEntry>,
    p: int,
)
    requires
        seq_wf(s),
        ival_valid(new.range),
        0 <= q <= r <= s.len(),
        forall|j: int| 0 <= j < s.len() ==> (absorbs(#[trigger] s[j], new) <==> q <= j < r),
        res == s.take(q) + seq![merged_entry(s, new)] + s.skip(r),
        merged_lo(s, new) == (if q < r {
            imin(new.range.start, s[q].range.start)
        } else {
            new.range.start
        }),
        merged_hi(s, new) == (if q < r {
            imax(new.range.end, s[r - 1].range.end)
        } else {
            new.range.end
        }),
    ensures
        covered(res, p) <==> ((new.range.start <= p < new.range.end) || covered(s, p)),
{
    reveal(crate::model::covered);
    let m = merged_entry(s, new);
    let lo = merged_lo(s, new);
    let hi = merged_hi(s, new);
    let ns = new.range.start;
    let ne = new.range.end;
    assert(lo <= ns && ne <= hi);
    let n1 = res.len() as int;
    assert(res[q] == m);
    assert(forall|j: int| 0 <= j < q ==> #[trigger] res[j] == s[j]);
    assert(forall|j: int| q < j < n1 ==> #[trigger] res[j] == s[j - q - 1 + r]);
    assert forall|j: int| q <= j < r implies lo <= (#[trigger] s[j]).range.start && s[j].range.end
        <= hi by {
        assert(absorbs(s[j], new));
        if q < j {
            lemma_order_pair(s, q, j);
        }
        if j < r - 1 {
            lemma_order_pair(s, j, r - 1);
        }
    }
    if ns <= p < ne {
        assert(m.range.start <= p < m.range.end);
        assert(covered(res, p));
    } else if lo <= p < hi {
        assert(m.range.start <= p < m.range.end);
        assert(covered(res, p));
        if p < ns {
            assert(q < r) by {
                if q == r {
                    assert(lo == ns);
                }
            }
            assert(absorbs(s[q], new));
            assert(s[q].range.start <= p);
            assert(s[q].range.end >= ns > p);
            assert(covered(s, p));
        } else {
            assert(p >= ne);
            assert(q < r) by {
                if q == r {
                    assert(hi == ne);
                }
            }
            assert(absorbs(s[r - 1], new));
            assert(s[r - 1].range.start <= ne <= p);
            assert(s[r - 1].range.end > p);
            assert(covered(s, p));
        }
    } else {
        if covered(s, p) {
            let i = choose|i: int|
                0 <= i < s.len() && (#[trigger] s[i]).range.start <= p < s[i].range.end;
            assert(!(q <= i < r));
            if i < q {
                assert(res[i] == s[i]);
                assert(res[i].range.start <= p < res[i].range.end);
            } else {
                assert(res[i - r + q + 1] == s[i]);
                assert(res[i - r + q + 1].range.start <= p < res[i - r + q + 1].range.end);
            }
            assert(covered(res, p));
        }
        if covered(res, p) {
            let i = choose|i: int|
                0 <= i < res.len() && (#[trigger] res[i]).range.start <= p < res[i].range.end;
            assert(i != q) by {
                if i == q {
                    assert(lo <= p < hi);
                }
            }
            if i < q {
                assert(s[i].range.start <= p < s[i].range.end);
            } else {
                assert(s[i - q - 1 + r].range.start <= p < s[i - q - 1 + r].range.end);
            }
            assert(covered(s, p));
        }
    }
}

/// The shape of an insertion into a sequence whose elements all share
/// the incoming kind: nothing is carved, and the absorbed run `[q, r)`
/// is replaced by the merged element.
#[verifier::spinoff_prover]
#[verifier::rlimit(100)]
proof fn lemma_add_shape_same_kind(s: Seq<RangeEntry>, new: RangeEntry) -> (qr: (int, int))
    requires
        seq_wf(s),
        ival_valid(new.range),
        forall|i: int| 0 <= i < s.len() ==> (#[trigger] s[i]).kind == new.kind,
    ensures
        0 <= qr.0 <= qr.1 <= s.len(),
        forall|j: int| 0 <= j < s.len() ==> (absorbs(#[trigger] s[j], new) <==> qr.0 <= j < qr.1),
        merged_lo(s, new) == (if qr.0 < qr.1 {
            imin(new.range.start, s[qr.0].range.start)
        } else {
            new.range.start
        }),
        merged_hi(s, new) == (if qr.0 < qr.1 {
            imax(new.range.end, s[qr.1 - 1].range.end)
        } else {
            new.range.end
        }),
        spec_add(s, new) == s.take(qr.0) + seq![merged_entry(s, new)] + s.skip(qr.1),
        seq_wf(spec_add(s, new)),
{
    let cs = carve_all(s, new);
    lemma_carve_all_props(s, new);
    lemma_carve_identity(s, new);
    assert(cs == s);
    let (q, r) = lemma_spec_add_run(s, new);
    lemma_insert_merge(cs, new, q, r);
    assert(spec_add(s, new) =~= s.take(q) + seq![merged_entry(s, new)] + s.skip(r));
    (q, r)
}

/// Over a uniformly tagged set, insertion covers exactly the union of
/// the old points and the incoming interval, and keeps the set uniform.
#[verifier::spinoff_prover]
#[verifier::rlimit(100)]
pub proof fn lemma_add_covered_uniform(s: Seq<RangeEntry>, new: RangeEntry, k: u64, w: bool)
    requires
        seq_wf(s),
        ival_valid(new.range),
        uniform(s, k, w),
        new.kind == k,
        new.overwritable == w,
    ensures
        uniform(spec_add(s, new), k, w),
        seq_wf(spec_add(s, new)),
        forall|p: int|
            #![trigger covered(spec_add(s, new), p)]
            covered(spec_add(s, new), p) <==> ((new.range.start <= p < new.range.end) || covered(
                s,
                p,
            )),
{
    let (q, r) = lemma_add_shape_same_kind(s, new);
    let m = merged_entry(s, new);
    let res = spec_add(s, new);
    assert(res[q] == m);
    assert(forall|j: int| 0 <= j < q ==> #[trigger] res[j] == s[j]);
    assert(forall|j: int| q < j < res.len() ==> #[trigger] res[j] == s[j - q - 1 + r]);
    assert(uniform(res, k, w));
    assert forall|p: int|
        covered(res, p) <==> ((new.range.start <= p < new.range.end) || covered(s, p)) by {
        lemma_add_covered_point(s, new, q, r, res, p);
    }
}

/// No point before the first element's start is covered.
#[verifier::spinoff_prover]
#[verifier::rlimit(100)]
proof fn lemma_not_covered_before_first(s: Seq<RangeEntry>, p: int)
    requires
        part_wf(s),
        s.len() > 0,
        p < s[0].range.start,
    ensures
        !covered(s, p),
{
    reveal(crate::model::covered);
    assert forall|i: int| 0 <= i < s.len() implies !((#[trigger] s[i]).range.start <= p
        < s[i].range.end) by {
        if i > 0 {
            lemma_order_pair(s, 0, i);
        }
    }
}

/// A covered point at the first element's end can only belong to an
/// immediately adjacent second element, which must have another kind.
#[verifier::spinoff_prover]
#[verifier::rlimit(100)]
proof fn lemma_covered_at_first_end(s: Seq<RangeEntry>, p: int)
    requires
        seq_wf(s),
        s.len() > 0,
        p == s[0].range.end,
        covered(s, p),
    ensures
        s.len() >= 2,
        s[1].range.start == s[0].range.end,
        s[1].kind != s[0].kind,
{
    reveal(crate::model::covered);
    let i = choose|i: int| 0 <= i < s.len() && ((#[trigger] s[i]).range.start <= p
        < s[i].range.end);
    assert(i != 0);
    lemma_order_pair(s, 0, i);
    assert(s[i].range.start == p);
    if i > 1 {
        lemma_order_pair(s, 1, i);
        assert(s[1].range.start < s[i].range.start);
        assert(s[1].range.start >= s[0].range.end);
        assert(false);
    }
}

/// Equal starts, from two coverage-equality instances.
#[verifier::spinoff_prover]
#[verifier::rlimit(100)]
proof fn lemma_heads_start_eq(s1: Seq<RangeEntry>, s2: Seq<RangeEntry>)
    requires
        part_wf(s1),
        part_wf(s2),
        s1.len() > 0,
        s2.len() > 0,
        covered(s1, s1[0].range.start as int) <==> covered(s2, s1[0].range.start as int),
        covered(s1, s2[0].range.start as int) <==> covered(s2, s2[0].range.start as int),
    ensures
        s1[0].range.start == s2[0].range.start,
{
    reveal(crate::model::covered);
    let a = s1[0];
    let b = s2[0];
    if a.range.start < b.range.start {
        let p = a.range.start as int;
        assert(a.range.start <= p < a.range.end);
        assert(covered(s1, p));
        lemma_not_covered_before_first(s2, p);
        assert(false);
    }
    if b.range.start < a.range.start {
        let p = b.range.start as int;
        assert(b.range.start <= p < b.range.end);
        assert(covered(s2, p));
        lemma_not_covered_before_first(s1, p);
        assert(false);
    }
}

/// Equal ends, from two coverage-equality instances, over one kind.
#[verifier::spinoff_prover]
#[verifier::rlimit(100)]
proof fn lemma_heads_end_eq(s1: Seq<RangeEntry>, s2: Seq<RangeEntry>, k: u64, w: bool)
    requires
        seq_wf(s1),
        seq_wf(s2),
        uniform(s1, k, w),
        uniform(s2, k, w),
        s1.len() > 0,
        s2.len() > 0,
        s1[0].range.start == s2[0].range.start,
        covered(s1, s1[0].range.end as int) <==> covered(s2, s1[0].range.end as int),
        covered(s1, s2[0].range.end as int) <==> covered(s2, s2[0].range.end as int),
    ensures
        s1[0].range.end == s2[0].range.end,
{
    reveal(crate::model::covered);
    let a = s1[0];
    let b = s2[0];
    if a.range.end < b.range.end {
        let p = a.range.end as int;
        assert(b.range.start <= p < b.range.end);
        assert(covered(s2, p));
        assert(covered(s1, p));
        lemma_covered_at_first_end(s1, p);
        assert(s1[1].kind == k && s1[0].kind == k);
        assert(false);
    }
    if b.range.end < a.range.end {
        let p = b.range.end as int;
        assert(a.range.start <= p < a.range.end);
        assert(covered(s1, p));
        assert(covered(s2, p));
        lemma_covered_at_first_end(s2, p);
        assert(s2[1].kind == k && s2[0].kind == k);
        assert(false);
    }
}

/// Two non-empty well-formed sets of one kind with the same covered
/// points start with the same element.
#[verifier::rlimit(100)]
proof fn lemma_covered_heads(s1: Seq<RangeEntry>, s2: Seq<RangeEntry>, k: u64, w: bool)
    requires
        seq_wf(s1),
        seq_wf(s2),
        uniform(s1, k, w),
        uniform(s2, k, w),
        forall|p: int| #![trigger covered(s1, p)] covered(s1, p) <==> covered(s2, p),
        s1.len() > 0,
        s2.len() > 0,
    ensures
        s1[0] == s2[0],
{
    assert(covered(s1, s1[0].range.start as int) <==> covered(s2, s1[0].range.start as int));
    assert(covered(s1, s2[0].range.start as int) <==> covered(s2, s2[0].range.start as int));
    lemma_heads_start_eq(s1, s2);
    assert(covered(s1, s1[0].range.end as int) <==> covered(s2, s1[0].range.end as int));
    assert(covered(s1, s2[0].range.end as int) <==> covered(s2, s2[0].range.end as int));
    lemma_heads_end_eq(s1, s2, k, w);
    assert(s1[0].kind == k && s2[0].kind == k);
    assert(s1[0].overwritable == w && s2[0].overwritable == w);
}

/// Two well-formed, uniformly tagged sets that cover the same points are
/// the same set.
#[verifier::spinoff_prover]
#[verifier::rlimit(100)]
pub proof fn lemma_covered_canonical(s1: Seq<RangeEntry>, s2: Seq<RangeEntry>, k: u64, w: bool)
    requires
        seq_wf(s1),
        seq_wf(s2),
        uniform(s1, k, w),
        uniform(s2, k, w),
        forall|p: int| #![trigger covered(s1, p)] covered(s1, p) <==> covered(s2, p),
    ensures
        s1 == s2,
    decreases s1.len(),
{
    if s1.len() == 0 {
        if s2.len() > 0 {
            let p = s2[0].range.start as int;
            reveal(crate::model::covered);
            assert(s2[0].range.start <= p < s2[0].range.end);
            assert(covered(s2, p));
            assert(covered(s1, p));
            assert(false);
        }
        assert(s1 =~= s2);
    } else {
        lemma_canonical_step(s1, s2, k, w);
        lemma_covered_canonical(s1.drop_first(), s2.drop_first(), k, w);
        lemma_head_tail_eq(s1, s2);
    }
}

/// Sequences with equal heads and equal tails are equal.
proof fn lemma_head_tail_eq(s1: Seq<RangeEntry>, s2: Seq<RangeEntry>)
    requires
        s1.len() > 0,
        s2.len() > 0,
        s1[0] == s2[0],
        s1.drop_first() == s2.drop_first(),
    ensures
        s1 == s2,
{
    let t1 = s1.drop_first();
    let t2 = s2.drop_first();
    assert(t1.len() == s1.len() - 1);
    assert(t2.len() == s2.len() - 1);
    assert(s1.len() == s2.len());
    assert forall|j: int| 0 <= j < s1.len() implies s1[j] == s2[j] by {
        if j > 0 {
            assert(s1[j] == t1[j - 1]);
            assert(s2[j] == t2[j - 1]);
        }
    }
    assert(s1 =~= s2);
}

/// The inductive step of the canonical-form argument: equal heads, and
/// the tails satisfy the same hypotheses.
#[verifier::spinoff_prover]
#[verifier::rlimit(100)]
proof fn lemma_canonical_step(s1: Seq<RangeEntry>, s2: Seq<RangeEntry>, k: u64, w: bool)
    requires
        seq_wf(s1),
        seq_wf(s2),
        uniform(s1, k, w),
        uniform(s2, k, w),
        forall|p: int| #![trigger covered(s1, p)] covered(s1, p) <==> covered(s2, p),
        s1.len() > 0,
    ensures
        s2.len() > 0,
        s1[0] == s2[0],
        seq_wf(s1.drop_first()),
        seq_wf(s2.drop_first()),
        uniform(s1.drop_first(), k, w),
        uniform(s2.drop_first(), k, w),
        forall|p: int|
            #![trigger covered(s1.drop_first(), p)]
            covered(s1.drop_first(), p) <==> covered(s2.drop_first(), p),
{
    assert(s2.len() > 0) by {
        reveal(crate::model::covered);
        let p = s1[0].range.start as int;
        assert(s1[0].range.start <= p < s1[0].range.end);
        assert(covered(s1, p));
        assert(covered(s2, p));
    }
    lemma_covered_heads(s1, s2, k, w);
    let t1 = s1.drop_first();
    let t2 = s2.drop_first();
    assert(forall|j: int| 0 <= j < t1.len() ==> #[trigger] t1[j] == s1[j + 1]);
    assert(forall|j: int| 0 <= j < t2.len() ==> #[trigger] t2[j] == s2[j + 1]);
    assert(seq_wf(t1) && seq_wf(t2));
    assert(uniform(t1, k, w) && uniform(t2, k, w));
    lemma_covered_tails(s1, s2);
}

/// One point of the tails comparison, from one instance of the coverage
/// equality.
#[verifier::spinoff_prover]
#[verifier::rlimit(100)]
proof fn lemma_covered_tails_point(s1: Seq<RangeEntry>, s2: Seq<RangeEntry>, p: int)
    requires
        seq_wf(s1),
        seq_wf(s2),
        s1.len() > 0,
        s2.len() > 0,
        s1[0] == s2[0],
        covered(s1, p) <==> covered(s2, p),
    ensures
        covered(s1.drop_first(), p) <==> covered(s2.drop_first(), p),
{
    lemma_covered_tail_point(s1, p);
    lemma_covered_tail_point(s2, p);
}

/// With equal heads and equal coverage, the tails also cover the same
/// points.
#[verifier::spinoff_prover]
#[verifier::rlimit(100)]
proof fn lemma_covered_tails(s1: Seq<RangeEntry>, s2: Seq<RangeEntry>)
    requires
        seq_wf(s1),
        seq_wf(s2),
        s1.len() > 0,
        s2.len() > 0,
        s1[0] == s2[0],
        forall|p: int| #![trigger covered(s1, p)] covered(s1, p) <==> covered(s2, p),
    ensures
        forall|p: int|
            #![trigger covered(s1.drop_first(), p)]
            covered(s1.drop_first(), p) <==> covered(s2.drop_first(), p),
{
    assert forall|p: int|
        #![trigger covered(s1.drop_first(), p)]
        covered(s1.drop_first(), p) <==> covered(s2.drop_first(), p) by {
        assert(covered(s1, p) <==> covered(s2, p));
        lemma_covered_tails_point(s1, s2, p);
    }
}

/// A point covered by the tail is covered by the whole sequence.
proof fn lemma_tail_covered_up(s: Seq<RangeEntry>, p: int)
    requires
        s.len() > 0,
        covered(s.drop_first(), p),
    ensures
        covered(s, p),
{
    reveal(crate::model::covered);
    let t = s.drop_first();
    let i = choose|i: int| 0 <= i < t.len() && ((#[trigger] t[i]).range.start <= p
        < t[i].range.end);
    assert(s[i + 1] == t[i]);
    assert(s[i + 1].range.start <= p < s[i + 1].range.end);
}

/// A covered point outside the first element is covered by the tail.
proof fn lemma_tail_covered_down(s: Seq<RangeEntry>, p: int)
    requires
        s.len() > 0,
        covered(s, p),
        !(s[0].range.start <= p < s[0].range.end),
    ensures
        covered(s.drop_first(), p),
{
    reveal(crate::model::covered);
    let t = s.drop_first();
    let i = choose|i: int| 0 <= i < s.len() && ((#[trigger] s[i]).range.start <= p
        < s[i].range.end);
    assert(i != 0);
    assert(t[i - 1] == s[i]);
    assert(t[i - 1].range.start <= p < t[i - 1].range.end);
}

/// Dropping the first element removes exactly the points it covered.
#[verifier::spinoff_prover]
#[verifier::rlimit(100)]
proof fn lemma_covered_tail_point(s: Seq<RangeEntry>, p: int)
    requires
        seq_wf(s),
        s.len() > 0,
    ensures
        (s[0].range.start <= p < s[0].range.end) ==> !covered(s.drop_first(), p),
        !(s[0].range.start <= p < s[0].range.end) ==> (covered(s.drop_first(), p) <==> covered(
            s,
            p,
        )),
{
    reveal(crate::model::covered);
    let t = s.drop_first();
    if s[0].range.start <= p < s[0].range.end {
        assert forall|i: int| 0 <= i < t.len() implies !((#[trigger] t[i]).range.start <= p
            < t[i].range.end) by {
            assert(t[i] == s[i + 1]);
            lemma_order_pair(s, 0, i + 1);
        }
        assert(!covered(t, p));
    } else {
        if covered(t, p) {
            lemma_tail_covered_up(s, p);
        }
        if covered(s, p) {
            lemma_tail_covered_down(s, p);
        }
    }
}

/// Order independence: over a uniformly tagged set, adding two elements
/// of that same kind and flag gives the same result in either order.
/// (With differing kinds this fails: two overlapping overwritable
/// elements of different kinds overwrite each other's overlap, so the
/// later one keeps it.)
#[verifier::spinoff_prover]
#[verifier::rlimit(100)]
pub proof fn lemma_add_order_independent(
    s: Seq<RangeEntry>,
    a: RangeEntry,
    b: RangeEntry,
    k: u64,
    w: bool,
)
    requires
        seq_wf(s),
        uniform(s, k, w),
        ival_valid(a.range),
        ival_valid(b.range),
        a.kind == k && a.overwritable == w,
        b.kind == k && b.overwritable == w,
    ensures
        spec_add(spec_add(s, a), b) == spec_add(spec_add(s, b), a),
{
    lemma_add_preserves_invariant(s, a);
    lemma_add_preserves_invariant(s, b);
    lemma_add_covered_uniform(s, a, k, w);
    lemma_add_covered_uniform(s, b, k, w);
    lemma_add_preserves_invariant(spec_add(s, a), b);
    lemma_add_preserves_invariant(spec_add(s, b), a);
    lemma_add_covered_uniform(spec_add(s, a), b, k, w);
    lemma_add_covered_uniform(spec_add(s, b), a, k, w);
    let s1 = spec_add(spec_add(s, a), b);
    let s2 = spec_add(spec_add(s, b), a);
    assert forall|p: int| covered(s1, p) <==> covered(s2, p) by {
        assert(covered(s1, p) <==> ((b.range.start <= p < b.range.end) || (a.range.start <= p
            < a.range.end) || covered(s, p)));
        assert(covered(s2, p) <==> ((a.range.start <= p < a.range.end) || (b.range.start <= p
            < b.range.end) || covered(s, p)));
    }
    lemma_covered_canonical(s1, s2, k, w);
}

} // verus!
