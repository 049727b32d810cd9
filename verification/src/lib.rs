//! Core document model of a fragment-based text composer.
//!
//! A document holds an ordered list of text fragments ("plots") that can be
//! joined into one composed text, searched, edited, saved and restored, with
//! a bounded undo/redo history. Everything here is verified; file and user
//! interface plumbing lives outside the library.

use vstd::prelude::*;

pub mod codec;
pub mod compose;
pub mod document;
pub mod font;
pub mod fragment;
pub mod laws;
pub mod model;
pub mod search;

verus! {

/// Maximum number of fragments a document may hold; inserting past it is a no-op.
pub const MAX_PLOTS: usize = 1024;

/// Maximum depth of each history stack; pushing past it evicts the oldest entry.
pub const MAX_UNDO_HISTORY: usize = 100;

} // verus!
