use vstd::prelude::*;

use crate::geometry::RangeEntry;

verus! {

/// The minimal backing-store capability the engine is written against:
/// random access, push, insert and removal at an index, and clearing.
/// A growable vector, a fixed-capacity vector and a caller-supplied
/// slice-backed vector all implement it; the engine never depends on
/// which one is used.
pub trait StoreOps: Sized {
    /// The stored elements, in order.
    spec fn model(&self) -> Seq<RangeEntry>;

    /// How many elements the backing can hold at most.
    spec fn cap(&self) -> usize;

    /// The store's own well-formedness (capacity bookkeeping and the like).
    spec fn wf(&self) -> bool;

    /// A well-formed store never holds more than its capacity.
    proof fn lemma_len_cap(&self)
        requires
            self.wf(),
        ensures
            self.model().len() <= self.cap(),
    ;

    fn count(&self) -> (n: usize)
        requires
            self.wf(),
        ensures
            n == self.model().len(),
    ;

    fn capacity(&self) -> (c: usize)
        requires
            self.wf(),
        ensures
            c == self.cap(),
    ;

    fn get_at(&self, i: usize) -> (e: RangeEntry)
        requires
            self.wf(),
            i < self.model().len(),
        ensures
            e == self.model()[i as int],
    ;

    fn append(&mut self, e: RangeEntry) -> (r: Result<(), ()>)
        requires
            old(self).wf(),
        ensures
            final(self).wf(),
            final(self).cap() == old(self).cap(),
            r.is_ok() ==> final(self).model() == old(self).model().push(e),
            r.is_err() ==> final(self).model() == old(self).model() && old(self).model().len()
                >= old(self).cap(),
            old(self).model().len() < old(self).cap() ==> r.is_ok(),
    ;

    fn insert_at(&mut self, i: usize, e: RangeEntry) -> (r: Result<(), ()>)
        requires
            old(self).wf(),
            i <= old(self).model().len(),
        ensures
            final(self).wf(),
            final(self).cap() == old(self).cap(),
            r.is_ok() ==> final(self).model() == old(self).model().insert(i as int, e),
            r.is_err() ==> final(self).model() == old(self).model() && old(self).model().len()
                >= old(self).cap(),
            old(self).model().len() < old(self).cap() ==> r.is_ok(),
    ;

    fn remove_at(&mut self, i: usize) -> (e: RangeEntry)
        requires
            old(self).wf(),
            i < old(self).model().len(),
        ensures
            final(self).wf(),
            final(self).cap() == old(self).cap(),
            e == old(self).model()[i as int],
            final(self).model() == old(self).model().remove(i as int),
    ;

    fn reset(&mut self)
        requires
            old(self).wf(),
        ensures
            final(self).wf(),
            final(self).cap() == old(self).cap(),
            final(self).model() == Seq::<RangeEntry>::empty(),
    ;
}

/// The growable backing: an ordinary vector, which never runs out of room.
impl StoreOps for Vec<RangeEntry> {
    open spec fn model(&self) -> Seq<RangeEntry> {
        self@
    }

    open spec fn cap(&self) -> usize {
        usize::MAX
    }

    open spec fn wf(&self) -> bool {
        true
    }

    proof fn lemma_len_cap(&self) {
        assert(self@.len() == vstd::std_specs::vec::spec_vec_len(self));
    }

    fn count(&self) -> (n: usize) {
        self.len()
    }

    fn capacity(&self) -> (c: usize) {
        usize::MAX
    }

    fn get_at(&self, i: usize) -> (e: RangeEntry) {
        self[i]
    }

    fn append(&mut self, e: RangeEntry) -> (r: Result<(), ()>) {
        self.push(e);
        Ok(())
    }

    fn insert_at(&mut self, i: usize, e: RangeEntry) -> (r: Result<(), ()>) {
        self.insert(i, e);
        Ok(())
    }

    fn remove_at(&mut self, i: usize) -> (e: RangeEntry) {
        self.remove(i)
    }

    fn reset(&mut self) {
        self.clear();
    }
}

} // verus!
