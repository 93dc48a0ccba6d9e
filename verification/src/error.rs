//! Failures that abort a rewrite. Malformed or unresolved references are not
//! here: they are non-fatal and only counted as diagnostics by the rewrites.

use vstd::prelude::*;

verus! {

/// A fatal failure of a rewrite.
#[derive(Debug)]
pub enum Error {
    /// A referenced document is not available under the given canonical URL.
    LoadFailure(String),
    /// The traversal re-entered resolved references deeper than the fixed
    /// bound allows, which signals a reference cycle.
    CyclicReference,
    /// A reference string with more than one `#` cannot be split. Callers
    /// treat this as a warning and keep the node unchanged.
    ReferenceSyntax(String),
}

/// The model of a failure.
pub enum ErrV {
    Load(Seq<char>),
    Cyclic,
    Syntax(Seq<char>),
}

impl View for Error {
    type V = ErrV;

    open spec fn view(&self) -> ErrV {
        match self {
            Error::LoadFailure(url) => ErrV::Load(url@),
            Error::CyclicReference => ErrV::Cyclic,
            Error::ReferenceSyntax(s) => ErrV::Syntax(s@),
        }
    }
}

} // verus!
