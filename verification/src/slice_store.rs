use vstd::prelude::*;

use crate::geometry::RangeEntry;
use crate::store::StoreOps;

verus! {

/// Declares tinyvec's slice-backed vector to Verus. Values of it are
/// opaque; what one holds and the capacity it was made with are given by
/// the two names below.
#[verifier::external_type_specification]
#[verifier::external_body]
#[verifier::reject_recursive_types(T)]
pub struct ExSliceVec<'s, T>(tinyvec::SliceVec<'s, T>);

/// The elements a slice-backed vector holds, in order.
pub uninterp spec fn sv_model(v: tinyvec::SliceVec<RangeEntry>) -> Seq<RangeEntry>;

/// The capacity a slice-backed vector was made with: the length of its
/// backing slice, which no operation changes.
pub uninterp spec fn sv_cap(v: tinyvec::SliceVec<RangeEntry>) -> usize;

/// Relies on tinyvec::SliceVec::from_slice_len with length zero: the
/// vector starts empty and its capacity is the backing slice's length.
#[verifier::external_body]
fn sv_from_slice(data: &mut [RangeEntry]) -> (v: tinyvec::SliceVec<'_, RangeEntry>)
    ensures
        sv_model(v) == Seq::<RangeEntry>::empty(),
        sv_cap(v) == old(data)@.len(),
{
    tinyvec::SliceVec::from_slice_len(data, 0)
}

/// Relies on tinyvec::SliceVec::len.
#[verifier::external_body]
fn sv_len(v: &tinyvec::SliceVec<RangeEntry>) -> (n: usize)
    ensures
        n == sv_model(*v).len(),
{
    v.len()
}

/// Relies on tinyvec::SliceVec::capacity: the backing slice's length.
#[verifier::external_body]
fn sv_capacity(v: &tinyvec::SliceVec<RangeEntry>) -> (c: usize)
    ensures
        c == sv_cap(*v),
{
    v.capacity()
}

/// Relies on tinyvec::SliceVec's slice view for indexed access.
#[verifier::external_body]
fn sv_get(v: &tinyvec::SliceVec<RangeEntry>, i: usize) -> (e: RangeEntry)
    requires
        i < sv_model(*v).len(),
    ensures
        e == sv_model(*v)[i as int],
{
    v[i]
}

/// Relies on tinyvec::SliceVec::push, which panics on a full vector: the
/// caller must stay below the capacity.
#[verifier::external_body]
fn sv_push(v: &mut tinyvec::SliceVec<RangeEntry>, e: RangeEntry)
    requires
        sv_model(*old(v)).len() < sv_cap(*old(v)),
    ensures
        sv_model(*final(v)) == sv_model(*old(v)).push(e),
        sv_cap(*final(v)) == sv_cap(*old(v)),
{
    v.push(e)
}

/// Relies on tinyvec::SliceVec::insert, which panics on a full vector or
/// an out-of-bounds index.
#[verifier::external_body]
fn sv_insert(v: &mut tinyvec::SliceVec<RangeEntry>, i: usize, e: RangeEntry)
    requires
        i <= sv_model(*old(v)).len(),
        sv_model(*old(v)).len() < sv_cap(*old(v)),
    ensures
        sv_model(*final(v)) == sv_model(*old(v)).insert(i as int, e),
        sv_cap(*final(v)) == sv_cap(*old(v)),
{
    v.insert(i, e)
}

/// Relies on tinyvec::SliceVec::remove, which panics on an out-of-bounds
/// index.
#[verifier::external_body]
fn sv_remove(v: &mut tinyvec::SliceVec<RangeEntry>, i: usize) -> (e: RangeEntry)
    requires
        i < sv_model(*old(v)).len(),
    ensures
        e == sv_model(*old(v))[i as int],
        sv_model(*final(v)) == sv_model(*old(v)).remove(i as int),
        sv_cap(*final(v)) == sv_cap(*old(v)),
{
    v.remove(i)
}

/// Relies on tinyvec::SliceVec::clear.
#[verifier::external_body]
fn sv_clear(v: &mut tinyvec::SliceVec<RangeEntry>)
    ensures
        sv_model(*final(v)) == Seq::<RangeEntry>::empty(),
        sv_cap(*final(v)) == sv_cap(*old(v)),
{
    v.clear()
}

/// A bounds-checked vector view over caller-supplied memory: the
/// allocation-free scratch region the engines stage into. The caller
/// hands in a plain slice and may reuse it across calls; its contents
/// between calls are not preserved (each use clears it first).
pub struct SliceStore<'s> {
    inner: tinyvec::SliceVec<'s, RangeEntry>,
    n: usize,
}

impl<'s> SliceStore<'s> {
    /// An empty store over the given backing slice.
    pub fn from_buffer(data: &mut [RangeEntry]) -> (s: SliceStore<'_>)
        ensures
            s.wf(),
            s.model() == Seq::<RangeEntry>::empty(),
            s.cap() == old(data)@.len(),
    {
        SliceStore { inner: sv_from_slice(data), n: 0 }
    }
}

impl<'s> StoreOps for SliceStore<'s> {
    closed spec fn model(&self) -> Seq<RangeEntry> {
        sv_model(self.inner)
    }

    closed spec fn cap(&self) -> usize {
        sv_cap(self.inner)
    }

    closed spec fn wf(&self) -> bool {
        &&& self.n == sv_model(self.inner).len()
        &&& self.n <= sv_cap(self.inner)
    }

    proof fn lemma_len_cap(&self) {
    }

    fn count(&self) -> (n: usize) {
        self.n
    }

    fn capacity(&self) -> (c: usize) {
        sv_capacity(&self.inner)
    }

    fn get_at(&self, i: usize) -> (e: RangeEntry) {
        sv_get(&self.inner, i)
    }

    fn append(&mut self, e: RangeEntry) -> (r: Result<(), ()>) {
        if self.n >= sv_capacity(&self.inner) {
            return Err(());
        }
        sv_push(&mut self.inner, e);
        self.n = self.n + 1;
        Ok(())
    }

    fn insert_at(&mut self, i: usize, e: RangeEntry) -> (r: Result<(), ()>) {
        if self.n >= sv_capacity(&self.inner) {
            return Err(());
        }
        sv_insert(&mut self.inner, i, e);
        self.n = self.n + 1;
        Ok(())
    }

    fn remove_at(&mut self, i: usize) -> (e: RangeEntry) {
        let e = sv_remove(&mut self.inner, i);
        self.n = self.n - 1;
        e
    }

    fn reset(&mut self) {
        sv_clear(&mut self.inner);
        self.n = 0;
    }
}

} // verus!
