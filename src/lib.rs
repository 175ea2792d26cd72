//! Extraction of structured documentation from source text: lines are
//! classified as code or documentation, merged into hunks, and each
//! documentation hunk is parsed into tagged entries.
use vstd::prelude::*;

pub mod text;
pub mod source;
pub mod doc;

verus! {

} // verus!
