//! Analysis of a C++ source tree into compilation units.
//!
//! The library derives, from the file names and directive lines of a source
//! tree, a graph of compilation units (groups of header/source files that
//! must build together), collapses dependency cycles into composite units so
//! the graph becomes a DAG, and arranges the surviving units into a
//! directory-keyed hierarchy for build-file emission.

pub mod collapse;
pub mod graph;
pub mod resolve;
pub mod trie;
pub mod types;
pub mod util;

use vstd::prelude::*;

verus! {

} // verus!
