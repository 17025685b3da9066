//! Hard failures of a resolution run.

use vstd::prelude::*;

verus! {

/// What stops a run before any trial can decide it.
#[derive(Debug, PartialEq, Eq, Structural)]
pub enum ResolveError {
    /// A diagnostic pattern was rejected by the regular-expression engine.
    DiagnosticPattern,
    /// A version string is not a valid semantic version.
    UnparsableVersion,
    /// The manifest could not be parsed or edited.
    ManifestEdit,
}

} // verus!
