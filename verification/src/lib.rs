//! Spatial and spectral views of a codebase.
//!
//! Functions are placed on the Eisenstein hexagonal lattice, calls and
//! imports become edges, and the dependency graph is cut into modules.
use vstd::prelude::*;

pub mod lattice;
pub mod spectral_analysis;
pub mod code_graph;
pub mod ranking;
pub mod spatial_analysis;
pub mod snap_navigation;
pub mod report;
pub mod sample;

verus! {

/// A position on the Eisenstein hexagonal lattice: the integer `a + b·ω`.
#[derive(Clone, Copy, PartialEq, Eq, Structural, Debug, Hash)]
pub struct LatticePos {
    pub a: i32,
    pub b: i32,
}

/// A stable identifier for a source file or module in the workspace.
#[derive(Debug, Hash)]
pub struct FileId(pub String);

impl View for FileId {
    type V = Seq<char>;

    open spec fn view(&self) -> Seq<char> {
        self.0@
    }
}

impl Clone for FileId {
    fn clone(&self) -> (r: Self)
        ensures
            r@ == self@,
    {
        FileId(self.0.clone())
    }
}

impl PartialEq for FileId {
    fn eq(&self, other: &Self) -> (r: bool) {
        self.0 == other.0
    }
}

impl vstd::std_specs::cmp::PartialEqSpecImpl for FileId {
    open spec fn obeys_eq_spec() -> bool {
        true
    }

    open spec fn eq_spec(&self, other: &FileId) -> bool {
        self@ == other@
    }
}

impl Eq for FileId {
}

/// A stable identifier for a function within a file.
#[derive(Debug, Hash)]
pub struct FunctionId {
    pub file: FileId,
    pub name: String,
}

impl View for FunctionId {
    type V = (Seq<char>, Seq<char>);

    open spec fn view(&self) -> (Seq<char>, Seq<char>) {
        (self.file@, self.name@)
    }
}

impl Clone for FunctionId {
    fn clone(&self) -> (r: Self)
        ensures
            r@ == self@,
    {
        FunctionId { file: self.file.clone(), name: self.name.clone() }
    }
}

impl PartialEq for FunctionId {
    fn eq(&self, other: &Self) -> (r: bool) {
        self.file == other.file && self.name == other.name
    }
}

impl vstd::std_specs::cmp::PartialEqSpecImpl for FunctionId {
    open spec fn obeys_eq_spec() -> bool {
        true
    }

    open spec fn eq_spec(&self, other: &FunctionId) -> bool {
        self@ == other@
    }
}

impl Eq for FunctionId {
}

} // verus!
