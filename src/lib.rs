//! A typed, optimistically concurrent document store: time-ordered identifiers
//! tagged by entity, document metadata with a version used as a compare-and-swap
//! token, and the decisions that a save makes against the backing store.

pub mod config;
pub mod documents;
pub mod ids;
pub mod persistence;
pub mod polls;
pub mod subjects;
pub mod untyped_ids;

use vstd::prelude::*;

verus! {

/// A value to show inside the page layout of the application.
#[derive(Debug)]
pub struct WithTemplate<C> {
    pub value: C,
}

} // verus!
