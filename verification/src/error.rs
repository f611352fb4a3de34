//! Errors of the execution engine.

use vstd::prelude::*;

verus! {

/// Why an execution operation failed.
#[derive(Debug, Clone, Copy, PartialEq, Eq, Structural)]
pub enum ExecutionError {
    /// A checkpoint could not be taken, written or read.
    CheckpointError,
    /// Recovering a run from its journal or checkpoint failed.
    RecoveryFailed,
    /// The execution state is not what an operation expects.
    StateError,
    /// No step can make progress though the run is not complete.
    Deadlock,
    /// A step referenced by name does not exist.
    StepNotFound,
    /// A referenced step has not completed.
    StepNotCompleted,
    /// A value references something that is not defined.
    UndefinedValue,
    /// A path addresses no value in the value it is applied to.
    UndefinedField,
}

} // verus!
