//! Errors that stop a run before anything is dispatched.

use vstd::prelude::*;

verus! {

/// Why a run could not be set up. None of these leaves a trace in the
/// progress cache.
#[derive(Clone, Copy, Debug, PartialEq, Eq, Structural)]
pub enum RunError {
    /// The stored progress cache could not be read back.
    CacheCorrupt,
    /// The per-identifier values lack an entry for an identifier of the run.
    IncompleteValueMap,
    /// The list of identifiers is empty.
    EmptyIdentifierList,
    /// The credentials could not be loaded.
    CredentialLoadFailure,
}

} // verus!
