//! Selection of nodes of a JSON document by a compiled JSONPath.
use vstd::prelude::*;

pub mod error;
pub mod json;
pub mod text;
pub mod refs;
pub mod walk;
pub mod seqs;
pub mod outside;
pub mod term;
pub mod token;
pub mod selector;
pub mod selector_mut;
pub mod laws;
pub mod deletion;
pub mod replacing;

verus! {
} // verus!
