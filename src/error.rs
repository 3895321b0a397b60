//! The outcomes that the library reports instead of a result.

use vstd::prelude::*;

verus! {

/// Each failure is a distinct, inspectable outcome.
#[derive(Clone, Copy, Debug, PartialEq, Eq, Structural)]
pub enum ProofError {
    /// The referenced company, employee or code is absent.
    NotFound,
    /// A principal is registered a second time.
    AlreadyExists,
    /// The employee is not a member of the company, or the company is deactivated.
    Unauthorized,
    /// The proof's validity ended before the verification.
    Expired,
    /// The proof was consumed before.
    AlreadyUsed,
    /// A company index beyond the employee's company list.
    IndexOutOfRange,
    /// No fresh code could be made: too little randomness, or every attempt collided.
    GenerationExhausted,
    /// The durable store failed; the operation may be retried.
    StoreUnavailable,
}

} // verus!
