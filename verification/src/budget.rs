//! A per-evaluation execution budget: an optional monotonic deadline.

use vstd::prelude::*;
use std::time::Instant;
use crate::ExecutionError;

verus! {

#[verifier::external_type_specification]
#[verifier::external_body]
pub struct ExInstant(std::time::Instant);

/// The current instant of the monotonic clock.
///
/// Wraps `Instant::now`; what it returns depends on the time, so nothing is
/// stated of it.
#[verifier::external_body]
pub(crate) fn now() -> (t: Instant) {
    Instant::now()
}

/// Whether `now` is at or past `deadline`.
///
/// Wraps the ordering of `Instant` (`>=`); an `Instant` is opaque here, so
/// nothing is stated of the outcome.
#[verifier::external_body]
pub(crate) fn reached(now: &Instant, deadline: &Instant) -> (r: bool) {
    *now >= *deadline
}

/// A monotonic execution budget for one evaluation: no deadline, or the
/// instant at which evaluation must stop.
#[derive(Clone, Copy, Debug, PartialEq, Eq)]
pub struct ExecutionBudget {
    deadline: Option<Instant>,
}

impl ExecutionBudget {
    /// The deadline of the budget, if any.
    pub closed spec fn deadline_spec(self) -> Option<Instant> {
        self.deadline
    }

    /// No deadline; evaluation runs until it completes or fails for another
    /// reason.
    pub fn unlimited() -> (b: Self)
        ensures
            b.deadline_spec() is None,
    {
        ExecutionBudget { deadline: None }
    }

    /// Expire at an absolute monotonic instant.
    pub fn with_deadline(deadline: Instant) -> (b: Self)
        ensures
            b.deadline_spec() == Some(deadline),
    {
        ExecutionBudget { deadline: Some(deadline) }
    }

    /// Returns `true` when no deadline is configured.
    pub fn is_unlimited(&self) -> (r: bool)
        ensures
            r == (self.deadline_spec() is None),
    {
        self.deadline.is_none()
    }

    /// Returns the configured monotonic deadline, if any.
    pub fn deadline(&self) -> (r: Option<Instant>)
        ensures
            r == self.deadline_spec(),
    {
        self.deadline
    }

    /// Fails with [`ExecutionError::DeadlineExceeded`] when the deadline has
    /// been reached or passed. Without a deadline it never fails.
    pub fn check(&self) -> (r: Result<(), ExecutionError>)
        ensures
            self.deadline_spec() is None ==> r is Ok,
            r is Err ==> r == Err::<(), ExecutionError>(ExecutionError::DeadlineExceeded),
    {
        if let Some(deadline) = &self.deadline {
            let t = now();
            if reached(&t, deadline) {
                return Err(ExecutionError::DeadlineExceeded);
            }
        }
        Ok(())
    }
}

impl Default for ExecutionBudget {
    /// No deadline.
    fn default() -> (b: Self)
        ensures
            b.deadline_spec() is None,
    {
        ExecutionBudget::unlimited()
    }
}

} // verus!
