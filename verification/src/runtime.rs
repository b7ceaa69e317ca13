//! Per-evaluation runtime state: cooperative interruption and iteration
//! budgets.
//!
//! Evaluation of an expression is bounded by two independent mechanisms: an
//! [`Interrupt`] handle, polled while comprehensions iterate, and an
//! iteration budget, set through [`RuntimeOptions`], that caps the total
//! number of comprehension iterations of one evaluation, nested ones
//! included. Once either trips, the evaluation as a whole fails.

use vstd::prelude::*;
use std::time::Instant;
use crate::budget::{now, reached};
use crate::ExecutionError;

verus! {

/// A cancellation signal consulted during evaluation.
pub trait Interrupt {
    /// Returns `true` once evaluation should stop.
    fn is_interrupted(&self) -> bool;
}

/// An [`Interrupt`] that trips once a point in time has passed.
#[derive(Debug, Clone, Copy, PartialEq, Eq)]
pub struct Deadline(Instant);

impl Deadline {
    /// The instant at which the deadline trips.
    pub closed spec fn instant_spec(self) -> Instant {
        self.0
    }

    /// A deadline that trips at the given instant.
    pub fn at(instant: Instant) -> (d: Self)
        ensures
            d.instant_spec() == instant,
    {
        Deadline(instant)
    }

    /// The instant at which this deadline trips.
    pub fn instant(&self) -> (i: Instant)
        ensures
            i == self.instant_spec(),
    {
        self.0
    }
}

impl Interrupt for Deadline {
    /// Whether the clock has reached the deadline.
    fn is_interrupted(&self) -> bool {
        let t = now();
        reached(&t, &self.0)
    }
}

/// Runtime policy shared by every evaluation: an iteration budget (zero
/// meaning none) and how often the interrupt handle is polled.
#[derive(Debug, Clone, PartialEq, Eq)]
pub struct RuntimeOptions {
    max_iterations: u64,
    interrupt_check_frequency: u64,
}

impl RuntimeOptions {
    /// The iteration budget, zero meaning unlimited.
    pub closed spec fn max_iterations_spec(self) -> u64 {
        self.max_iterations
    }

    /// How many iterations run between polls of the interrupt handle.
    pub closed spec fn frequency_spec(self) -> u64 {
        self.interrupt_check_frequency
    }

    /// The options are usable: the interrupt handle is polled at all.
    pub closed spec fn wf(self) -> bool {
        self.interrupt_check_frequency >= 1
    }

    /// Caps the total number of comprehension iterations a single evaluation
    /// may perform; zero, the default, means unlimited.
    pub fn with_max_iterations(self, max_iterations: u64) -> (o: Self)
        ensures
            o.max_iterations_spec() == max_iterations,
            o.frequency_spec() == self.frequency_spec(),
            self.wf() ==> o.wf(),
    {
        RuntimeOptions { max_iterations, interrupt_check_frequency: self.interrupt_check_frequency }
    }

    /// Polls the interrupt handle every `frequency` comprehension iterations.
    /// Zero is clamped to one: setting a frequency never disables
    /// interruption.
    pub fn with_interrupt_check_frequency(self, frequency: u64) -> (o: Self)
        ensures
            o.max_iterations_spec() == self.max_iterations_spec(),
            o.frequency_spec() == (if frequency == 0 { 1 } else { frequency }),
            o.wf(),
    {
        let f = if frequency > 1 { frequency } else { 1 };
        RuntimeOptions { max_iterations: self.max_iterations, interrupt_check_frequency: f }
    }

    /// The iteration budget, zero meaning unlimited.
    pub fn max_iterations(&self) -> (r: u64)
        ensures
            r == self.max_iterations_spec(),
    {
        self.max_iterations
    }

    /// How many comprehension iterations run between polls of the interrupt
    /// handle.
    pub fn interrupt_check_frequency(&self) -> (r: u64)
        ensures
            r == self.frequency_spec(),
    {
        self.interrupt_check_frequency
    }
}

impl Default for RuntimeOptions {
    /// No iteration budget, and the interrupt handle polled on every
    /// iteration.
    fn default() -> (o: Self)
        ensures
            o.max_iterations_spec() == 0,
            o.frequency_spec() == 1,
            o.wf(),
    {
        RuntimeOptions { max_iterations: 0, interrupt_check_frequency: 1 }
    }
}

/// Why an evaluation was stopped, if it was.
#[derive(Clone, Copy, Debug, PartialEq, Eq, Structural)]
pub enum Abort {
    Running,
    Budget,
    Interrupted,
}

/// Per-evaluation state: the iterations run and the polls made so far, and
/// the abort recorded, if any.
pub struct Frame<'a, I: Interrupt> {
    interrupt: Option<&'a I>,
    max_iterations: u64,
    check_frequency: u64,
    iterations: u64,
    polls: u64,
    abort: Abort,
}

/// The error that an abort surfaces as.
pub open spec fn abort_error_of(abort: Abort, limit: u64) -> Option<ExecutionError> {
    match abort {
        Abort::Interrupted => Some(ExecutionError::Interrupted),
        Abort::Budget => Some(ExecutionError::IterationBudgetExceeded { limit }),
        Abort::Running => None,
    }
}

impl<'a, I: Interrupt> Frame<'a, I> {
    pub closed spec fn wf(self) -> bool {
        self.check_frequency >= 1
    }

    pub closed spec fn abort_spec(self) -> Abort {
        self.abort
    }

    pub closed spec fn iterations_spec(self) -> u64 {
        self.iterations
    }

    pub closed spec fn polls_spec(self) -> u64 {
        self.polls
    }

    pub closed spec fn limit(self) -> u64 {
        self.max_iterations
    }

    pub closed spec fn frequency(self) -> u64 {
        self.check_frequency
    }

    pub closed spec fn has_interrupt(self) -> bool {
        self.interrupt is Some
    }

    /// A fresh frame for one evaluation under `options`.
    pub fn new(options: &RuntimeOptions, interrupt: Option<&'a I>) -> (f: Self)
        ensures
            f.wf(),
            f.abort_spec() == Abort::Running,
            f.iterations_spec() == 0,
            f.polls_spec() == 0,
            f.limit() == options.max_iterations_spec(),
            f.frequency() == (if options.frequency_spec() == 0 { 1 } else { options.frequency_spec() }),
            f.has_interrupt() == interrupt is Some,
    {
        let freq = options.interrupt_check_frequency;
        Frame {
            interrupt,
            max_iterations: options.max_iterations,
            check_frequency: if freq > 1 { freq } else { 1 },
            iterations: 0,
            polls: 0,
            abort: Abort::Running,
        }
    }

    /// The error of the recorded abort, if any.
    pub fn abort_error(&self) -> (r: Option<ExecutionError>)
        ensures
            r == abort_error_of(self.abort_spec(), self.limit()),
    {
        match self.abort {
            Abort::Interrupted => Some(ExecutionError::Interrupted),
            Abort::Budget => Some(ExecutionError::IterationBudgetExceeded { limit: self.max_iterations }),
            Abort::Running => None,
        }
    }

    /// Records an abort. An interrupt always wins over a budget overrun,
    /// since the embedder asked for it explicitly; otherwise the first
    /// abort recorded stays.
    pub fn record(&mut self, abort: Abort)
        ensures
            final(self).abort_spec() == (if abort == Abort::Interrupted {
                Abort::Interrupted
            } else if old(self).abort_spec() == Abort::Running {
                abort
            } else {
                old(self).abort_spec()
            }),
            final(self).iterations_spec() == old(self).iterations_spec(),
            final(self).polls_spec() == old(self).polls_spec(),
            final(self).limit() == old(self).limit(),
            final(self).frequency() == old(self).frequency(),
            final(self).has_interrupt() == old(self).has_interrupt(),
            final(self).wf() == old(self).wf(),
    {
        if abort == Abort::Interrupted {
            self.abort = Abort::Interrupted;
        } else if self.abort == Abort::Running {
            self.abort = abort;
        }
    }

    /// Accounts for one comprehension iteration: enforces the budget and
    /// polls the interrupt handle at the configured frequency. Once an abort
    /// has been recorded, every call fails at once.
    pub fn tick(&mut self) -> (r: Result<(), ExecutionError>)
        requires
            old(self).wf(),
            old(self).iterations_spec() < u64::MAX,
            old(self).polls_spec() < u64::MAX,
        ensures
            final(self).wf(),
            final(self).limit() == old(self).limit(),
            final(self).frequency() == old(self).frequency(),
            final(self).has_interrupt() == old(self).has_interrupt(),
            old(self).abort_spec() != Abort::Running ==> *final(self) == *old(self)
                && r == Err::<(), ExecutionError>(abort_error_of(old(self).abort_spec(), old(self).limit())->0),
            old(self).abort_spec() == Abort::Running ==> final(self).iterations_spec() == old(self).iterations_spec() + 1,
            old(self).abort_spec() == Abort::Running && old(self).limit() > 0 && old(self).iterations_spec() + 1 > old(self).limit()
                ==> final(self).abort_spec() == Abort::Budget && final(self).polls_spec() == old(self).polls_spec()
                && r == Err::<(), ExecutionError>(ExecutionError::IterationBudgetExceeded { limit: old(self).limit() }),
            old(self).abort_spec() == Abort::Running && !(old(self).limit() > 0 && old(self).iterations_spec() + 1 > old(self).limit())
                ==> (if !old(self).has_interrupt() {
                    r is Ok && final(self).abort_spec() == Abort::Running && final(self).polls_spec() == old(self).polls_spec()
                } else {
                    &&& final(self).polls_spec() == old(self).polls_spec() + 1
                    &&& (old(self).polls_spec() + 1) % (old(self).frequency() as int) != 0 ==> r is Ok
                    &&& r is Ok <==> final(self).abort_spec() == Abort::Running
                    &&& r is Err ==> final(self).abort_spec() == Abort::Interrupted
                        && r == Err::<(), ExecutionError>(ExecutionError::Interrupted)
                }),
    {
        if let Some(err) = self.abort_error() {
            return Err(err);
        }
        self.iterations = self.iterations + 1;
        let iterations = self.iterations;
        if self.max_iterations > 0 && iterations > self.max_iterations {
            self.record(Abort::Budget);
            return Err(ExecutionError::IterationBudgetExceeded { limit: self.max_iterations });
        }
        if let Some(interrupt) = self.interrupt {
            self.polls = self.polls + 1;
            let polls = self.polls;
            if polls % self.check_frequency == 0 && interrupt.is_interrupted() {
                self.record(Abort::Interrupted);
                return Err(ExecutionError::Interrupted);
            }
        }
        Ok(())
    }

    /// Whether the counters of iterations or polls are full, so that no
    /// further iteration can be counted.
    pub fn exhausted(&self) -> (r: bool)
        ensures
            r == (self.iterations_spec() == u64::MAX || self.polls_spec() == u64::MAX),
    {
        self.iterations == u64::MAX || self.polls == u64::MAX
    }

    /// Polls the interrupt handle directly, bypassing the frequency gate.
    /// Observing an interrupt is sticky: once observed, the evaluation fails
    /// with [`ExecutionError::Interrupted`].
    pub fn observe_interrupt(&mut self) -> (r: bool)
        ensures
            final(self).iterations_spec() == old(self).iterations_spec(),
            final(self).polls_spec() == old(self).polls_spec(),
            final(self).limit() == old(self).limit(),
            final(self).frequency() == old(self).frequency(),
            final(self).has_interrupt() == old(self).has_interrupt(),
            old(self).abort_spec() == Abort::Interrupted ==> r && final(self).abort_spec() == Abort::Interrupted,
            r ==> final(self).abort_spec() == Abort::Interrupted,
            !r ==> final(self).abort_spec() == old(self).abort_spec(),
            !old(self).has_interrupt() ==> r == (old(self).abort_spec() == Abort::Interrupted),
            final(self).wf() == old(self).wf(),
    {
        if self.abort == Abort::Interrupted {
            return true;
        }
        match self.interrupt {
            Some(interrupt) => {
                if interrupt.is_interrupted() {
                    self.record(Abort::Interrupted);
                    true
                } else {
                    false
                }
            },
            None => false,
        }
    }

    /// Replaces `result` with the recorded abort, if any: the backstop that
    /// makes an abort surface even if its error was swallowed on the way.
    pub fn finish<T>(&self, result: Result<T, ExecutionError>) -> (r: Result<T, ExecutionError>)
        ensures
            match abort_error_of(self.abort_spec(), self.limit()) {
                Some(e) => r == Err::<T, ExecutionError>(e),
                None => r == result,
            },
    {
        match self.abort_error() {
            Some(err) => Err(err),
            None => result,
        }
    }
}

} // verus!
