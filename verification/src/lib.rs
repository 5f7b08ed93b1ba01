//! An ordered interval set: a collection of half-open ranges `[start, end)`
//! kept sorted, mutually disjoint and maximally merged, with kind-based
//! conflict detection and an allocation-free fixed-capacity execution mode.

pub mod bounded;
pub mod engine;
pub mod geometry;
pub mod laws;
pub mod model;
pub mod rangeset;
pub mod slice_store;
pub mod store;

pub use bounded::BoundedStore;
pub use engine::{
    add_fits, check_conflicts, contains_point, extend_state, find_insert_position, merge_add,
    merge_contains_point, merge_extend, merge_remove, remove_fits,
};
pub use geometry::{ranges_overlap, split_range, validate_range};
pub use geometry::{Interval, RangeEntry, RangeError};
pub use rangeset::{MergedRange, OriginalRange, RangeSet};
pub use slice_store::SliceStore;
pub use store::StoreOps;
