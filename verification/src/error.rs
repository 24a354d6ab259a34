//! Errors of resolution and inference, and source spans for diagnostics.

use vstd::prelude::*;
use crate::ident::Ident;

verus! {

/// A source span attached to AST nodes, kept only for diagnostics.
#[derive(Clone, Copy, PartialEq, Eq, Structural, Debug)]
pub struct Span {
    pub start: usize,
    pub end: usize,
}

/// Why a name failed to resolve or a column failed to infer. Every error
/// is terminal for the identifier or column it concerns: the caller
/// propagates it, there is no retry.
#[derive(Debug)]
pub enum NameError {
    /// More than one declaration matches a lookup; all candidates are
    /// listed.
    AmbiguousName { candidates: Vec<Ident> },
    /// Neither a direct nor a wildcard-fallback lookup finds anything.
    UnknownName { ident: Ident },
    /// Column inference was asked of a table whose declared shape carries
    /// no wildcard marker, so its shape is not incomplete.
    NoWildcardOnTable { table: Ident },
    /// The table's defining relation has no wildcard input that the new
    /// column could be attributed to.
    InferenceImpossible { table: Ident, column: String },
    /// The table's defining relation has several wildcard inputs, so the
    /// true source of the new column cannot be determined; the candidate
    /// input names are listed.
    InferenceAmbiguous { table: Ident, column: String, inputs: Vec<String> },
    /// Inserting a declaration hit a path segment already bound to
    /// something that is not a namespace.
    PathConflict { ident: Ident },
    /// The namespace tree broke an internal consistency assumption (for
    /// example, a declared table path that does not resolve to a table
    /// declaration); resolution of the current name is abandoned.
    Internal { ident: Ident },
}

} // verus!
