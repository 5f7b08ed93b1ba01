use vstd::prelude::*;

use crate::geometry::RangeEntry;
use crate::store::StoreOps;

verus! {

/// The fixed backing array's size. A store may impose a smaller logical
/// limit at run time, but never a larger one.
pub const FIXED_BACKING: usize = 16;

/// Declares heapless's fixed-capacity vector to Verus. Values of it are
/// opaque; what one holds is given by `hv_model` below.
#[verifier::external_type_specification]
#[verifier::external_body]
#[verifier::reject_recursive_types(T)]
pub struct ExHeaplessVec<T, const N: usize>(heapless::Vec<T, N>);

/// The elements a heapless vector holds, in order.
pub uninterp spec fn hv_model(v: heapless::Vec<RangeEntry, 16>) -> Seq<RangeEntry>;

/// Relies on heapless::Vec::new: a fresh vector is empty.
#[verifier::external_body]
fn hv_new() -> (v: heapless::Vec<RangeEntry, 16>)
    ensures
        hv_model(v) == Seq::<RangeEntry>::empty(),
{
    heapless::Vec::new()
}

/// Relies on heapless::Vec::len.
#[verifier::external_body]
fn hv_len(v: &heapless::Vec<RangeEntry, 16>) -> (n: usize)
    ensures
        n == hv_model(*v).len(),
{
    v.len()
}

/// Relies on heapless::Vec's slice view for indexed access.
#[verifier::external_body]
fn hv_get(v: &heapless::Vec<RangeEntry, 16>, i: usize) -> (e: RangeEntry)
    requires
        i < hv_model(*v).len(),
    ensures
        e == hv_model(*v)[i as int],
{
    v[i]
}

/// Relies on heapless::Vec::push: appends while the vector is below its
/// compile-time capacity, otherwise hands the item back unchanged.
#[verifier::external_body]
fn hv_push(v: &mut heapless::Vec<RangeEntry, 16>, e: RangeEntry) -> (r: Result<(), ()>)
    ensures
        hv_model(*old(v)).len() < 16 ==> r is Ok,
        r is Ok ==> hv_model(*final(v)) == hv_model(*old(v)).push(e),
        r is Err ==> hv_model(*final(v)) == hv_model(*old(v)) && hv_model(*old(v)).len() >= 16,
{
    v.push(e).map_err(|_| ())
}

/// Relies on heapless::Vec::insert: shifts the tail right; refuses only a
/// full vector. The index must be in bounds, or it panics.
#[verifier::external_body]
fn hv_insert(v: &mut heapless::Vec<RangeEntry, 16>, i: usize, e: RangeEntry) -> (r: Result<
    (),
    (),
>)
    requires
        i <= hv_model(*old(v)).len(),
    ensures
        hv_model(*old(v)).len() < 16 ==> r is Ok,
        r is Ok ==> hv_model(*final(v)) == hv_model(*old(v)).insert(i as int, e),
        r is Err ==> hv_model(*final(v)) == hv_model(*old(v)) && hv_model(*old(v)).len() >= 16,
{
    v.insert(i, e).map_err(|_| ())
}

/// Relies on heapless::Vec::remove: takes the element out and shifts the
/// tail left. The index must be in bounds, or it panics.
#[verifier::external_body]
fn hv_remove(v: &mut heapless::Vec<RangeEntry, 16>, i: usize) -> (e: RangeEntry)
    requires
        i < hv_model(*old(v)).len(),
    ensures
        e == hv_model(*old(v))[i as int],
        hv_model(*final(v)) == hv_model(*old(v)).remove(i as int),
{
    v.remove(i)
}

/// Relies on heapless::Vec::clear.
#[verifier::external_body]
fn hv_clear(v: &mut heapless::Vec<RangeEntry, 16>)
    ensures
        hv_model(*final(v)) == Seq::<RangeEntry>::empty(),
{
    v.clear()
}

/// A fixed-capacity backing store over a heapless vector: no allocation
/// ever happens. A run-time `limit` at most the backing size makes the
/// store reject pushes beyond it, so smaller capacities can be exercised.
pub struct BoundedStore {
    inner: heapless::Vec<RangeEntry, 16>,
    n: usize,
    limit: usize,
}

impl BoundedStore {
    /// An empty store with the full backing capacity.
    pub fn new() -> (s: BoundedStore)
        ensures
            s.wf(),
            s.model() == Seq::<RangeEntry>::empty(),
            s.cap() == FIXED_BACKING,
    {
        BoundedStore { inner: hv_new(), n: 0, limit: FIXED_BACKING }
    }

    /// An empty store that holds at most `limit` elements.
    pub fn with_limit(limit: usize) -> (s: BoundedStore)
        requires
            limit <= FIXED_BACKING,
        ensures
            s.wf(),
            s.model() == Seq::<RangeEntry>::empty(),
            s.cap() == limit,
    {
        BoundedStore { inner: hv_new(), n: 0, limit }
    }
}

impl StoreOps for BoundedStore {
    closed spec fn model(&self) -> Seq<RangeEntry> {
        hv_model(self.inner)
    }

    closed spec fn cap(&self) -> usize {
        self.limit
    }

    closed spec fn wf(&self) -> bool {
        &&& self.n == hv_model(self.inner).len()
        &&& self.n <= self.limit
        &&& self.limit <= 16
    }

    proof fn lemma_len_cap(&self) {
    }

    fn count(&self) -> (n: usize) {
        self.n
    }

    fn capacity(&self) -> (c: usize) {
        self.limit
    }

    fn get_at(&self, i: usize) -> (e: RangeEntry) {
        hv_get(&self.inner, i)
    }

    fn append(&mut self, e: RangeEntry) -> (r: Result<(), ()>) {
        if self.n >= self.limit {
            return Err(());
        }
        match hv_push(&mut self.inner, e) {
            Ok(()) => {
                self.n = self.n + 1;
                Ok(())
            },
            Err(()) => {
                proof {
                    assert(false);
                }
                Err(())
            },
        }
    }

    fn insert_at(&mut self, i: usize, e: RangeEntry) -> (r: Result<(), ()>) {
        if self.n >= self.limit {
            return Err(());
        }
        match hv_insert(&mut self.inner, i, e) {
            Ok(()) => {
                self.n = self.n + 1;
                Ok(())
            },
            Err(()) => {
                proof {
                    assert(false);
                }
                Err(())
            },
        }
    }

    fn remove_at(&mut self, i: usize) -> (e: RangeEntry) {
        let e = hv_remove(&mut self.inner, i);
        self.n = self.n - 1;
        e
    }

    fn reset(&mut self) {
        hv_clear(&mut self.inner);
        self.n = 0;
    }
}

} // verus!
