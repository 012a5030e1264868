//! Catalog indexing and constrained random sampling.
//!
//! The crate keeps a build-once catalog that maps category names to
//! ordered lists of media items, addressable both per category and
//! through a flat global ordinal space, and provides three sampling
//! operations over it and over auxiliary data: a uniform item draw,
//! a unique-name/unique-affiliation leader draft, and an
//! exclusion-aware draw of game-mode labels.

pub mod catalog;
pub mod leaders;
pub mod modes;
pub mod rng;
pub mod select;
pub mod text;

use vstd::prelude::*;

verus! {

/// A typed failure reported back to callers; never a process fault.
#[derive(Debug)]
pub enum DrawError {
    /// The requested category name is not a key of the catalog.
    UnknownCategory { name: String },
    /// The category exists but holds no items.
    EmptyCategory { name: String },
    /// A global draw was requested from a catalog with no items at all.
    EmptyCatalog,
    /// A global ordinal at or above the catalog's total count.
    OrdinalOutOfRange { ordinal: usize, total: usize },
}

} // verus!
