//! The data model: unit identity, unit payload, and the analysis errors.

use vstd::prelude::*;

verus! {

/// Identity of a compilation unit: its normalized base name and the
/// directory it lives in. Equality is structural over the two fields and a
/// key never changes once created.
#[derive(Debug)]
pub struct UnitKey {
    pub name: String,
    pub root_dir: String,
}

/// The mathematical value of a [`UnitKey`]: both fields as character
/// sequences.
#[verifier::ext_equal]
pub struct KeyView {
    pub name: Seq<char>,
    pub root_dir: Seq<char>,
}

impl View for UnitKey {
    type V = KeyView;

    open spec fn view(&self) -> KeyView {
        KeyView { name: self.name@, root_dir: self.root_dir@ }
    }
}

impl Clone for UnitKey {
    fn clone(&self) -> (r: Self)
        ensures
            r@ == self@,
    {
        UnitKey { name: self.name.clone(), root_dir: self.root_dir.clone() }
    }
}

impl PartialEq for UnitKey {
    fn eq(&self, other: &Self) -> (r: bool) {
        self.name == other.name && self.root_dir == other.root_dir
    }
}

impl vstd::std_specs::cmp::PartialEqSpecImpl for UnitKey {
    open spec fn obeys_eq_spec() -> bool {
        true
    }

    open spec fn eq_spec(&self, other: &Self) -> bool {
        self@ == other@
    }
}

/// Mutable payload of a unit: the header/template file names, the
/// source/test file names, and the two mirrored edge sets, held as indices
/// into the node store.
pub struct UnitInfo {
    pub headers: Vec<String>,
    pub srcs: Vec<String>,
    pub deps: Vec<usize>,
    pub reverse_deps: Vec<usize>,
}

impl Default for UnitInfo {
    /// A fresh payload: no files and no edges.
    fn default() -> (r: Self)
        ensures
            r.headers@.len() == 0,
            r.srcs@.len() == 0,
            r.deps@.len() == 0,
            r.reverse_deps@.len() == 0,
    {
        UnitInfo { headers: Vec::new(), srcs: Vec::new(), deps: Vec::new(), reverse_deps: Vec::new() }
    }
}

/// The failures that abort an analysis run, by phase: a malformed directive
/// line found while populating the graph (the offending line's index is
/// attached), or a cycle left over after collapsing, which signals a defect
/// in the merge itself rather than bad input.
#[derive(PartialEq, Eq, Structural, Clone, Copy, Debug)]
pub enum AnalysisError {
    BadDirective { line: usize },
    ResidualCycle,
}

} // verus!
