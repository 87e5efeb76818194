//! Cross-reference graph of Markdown and HTML documents.
use vstd::prelude::*;

pub mod extract;
pub mod graph;
pub mod hook;
pub mod model;
pub mod paths;
pub mod render;
pub mod report;
pub mod scan;
pub mod stale;
pub mod text;
pub mod traverse;
pub mod validate;

verus! {

} // verus!
