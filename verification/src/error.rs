//! Build-time errors. All of them are detected during `build` or `reload`;
//! a successfully built graph renders without error.

use vstd::prelude::*;

verus! {

/// Why a graph could not be built from a node set.
#[derive(Debug, Clone)]
pub enum BuildError {
    /// Two nodes share the carried name.
    DuplicateName(String),
    /// An entry of a node's `inputs` names a node that does not exist.
    ResolutionError(String),
    /// A parameter links to a node that does not exist.
    BrokenLink(String),
    /// The dependency graph contains a cycle; the carried names are the nodes
    /// that cannot be placed in any dependency-first order (the participants
    /// of cycles and every node stuck behind one).
    CycleError(Vec<String>),
}

impl BuildError {
    /// A short label for the error kind.
    pub fn kind(&self) -> (r: &'static str)
        ensures
            self is DuplicateName ==> r@ == "duplicate node name"@,
            self is ResolutionError ==> r@ == "unresolved input reference"@,
            self is BrokenLink ==> r@ == "broken parameter link"@,
            self is CycleError ==> r@ == "dependency cycle"@,
    {
        proof {
            reveal_strlit("duplicate node name");
            reveal_strlit("unresolved input reference");
            reveal_strlit("broken parameter link");
            reveal_strlit("dependency cycle");
        }
        match self {
            BuildError::DuplicateName(_) => "duplicate node name",
            BuildError::ResolutionError(_) => "unresolved input reference",
            BuildError::BrokenLink(_) => "broken parameter link",
            BuildError::CycleError(_) => "dependency cycle",
        }
    }
}

} // verus!
