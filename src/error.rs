//! Errors reported by the engine.

use vstd::prelude::*;

verus! {

/// What can go wrong in the engine.
#[derive(Clone, Copy, Debug, PartialEq, Eq, Structural)]
pub enum ReactiveError {
    /// The id names no cell of this runtime.
    UnknownCell,
    /// The id names no computation of this runtime, or one of the wrong kind.
    UnknownComputation,
    /// The cell's owner was disposed; it may not be read or written.
    DisposedAccess,
    /// No scope on the path to the root holds the key.
    ContextNotFound,
    /// The id names no scope.
    UnknownScope,
    /// A keyed list holds the same key twice.
    DuplicateKey,
}

} // verus!
