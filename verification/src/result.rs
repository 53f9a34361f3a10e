//! The tri-state result model of the engine.
//!
//! A solving step either produces a solution, reports that no (further)
//! solution exists, or raises an engine-level exception. Logical failure is
//! ordinary control flow, not an error; an exception must be propagated or
//! inspected, never dropped.

use vstd::prelude::*;

verus! {

/// The two non-success outcomes of a solving step.
///
/// `Failure` means the engine determined that no (more) solutions exist;
/// it is expected and recoverable. `Exception` means an engine-level error
/// value was raised while solving; the value itself stays pending in the
/// engine until it is fetched or cleared.
#[derive(Clone, Copy, Debug, PartialEq, Eq, Structural)]
pub enum PrologError {
    Failure,
    Exception,
}

/// Result of an operation that can fail logically or raise an exception.
pub type PrologResult<T> = Result<T, PrologError>;

} // verus!
