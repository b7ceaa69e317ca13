use cel::budget::ExecutionBudget;
use cel::runtime::{Abort, Deadline, Frame, Interrupt, RuntimeOptions};
use cel::ExecutionError;
use std::time::{Duration, Instant};

struct Flag(bool);

impl Interrupt for Flag {
    fn is_interrupted(&self) -> bool {
        self.0
    }
}

#[test]
fn zero_frequency_clamps_to_one() {
    let options = RuntimeOptions::default().with_interrupt_check_frequency(0);
    assert_eq!(options.interrupt_check_frequency(), 1);
}

#[test]
fn budget_off_by_default() {
    let options = RuntimeOptions::default();
    assert_eq!(options.max_iterations(), 0);
    assert_eq!(options.interrupt_check_frequency(), 1);
}

#[test]
fn the_budget_stops_the_evaluation_and_stays_stopped() {
    let options = RuntimeOptions::default().with_max_iterations(2);
    let mut frame: Frame<Flag> = Frame::new(&options, None);
    assert_eq!(frame.tick(), Ok(()));
    assert_eq!(frame.tick(), Ok(()));
    assert_eq!(frame.tick(), Err(ExecutionError::IterationBudgetExceeded { limit: 2 }));
    assert_eq!(frame.tick(), Err(ExecutionError::IterationBudgetExceeded { limit: 2 }));
    assert_eq!(frame.finish(Ok(1)), Err(ExecutionError::IterationBudgetExceeded { limit: 2 }));
}

#[test]
fn frame_records_first_budget_only() {
    let options = RuntimeOptions::default().with_max_iterations(1);
    let mut frame: Frame<Flag> = Frame::new(&options, None);
    assert!(frame.tick().is_ok());
    assert_eq!(frame.tick(), Err(ExecutionError::IterationBudgetExceeded { limit: 1 }));
    // Sticky: still failing, and finish() overrides a value.
    assert_eq!(frame.tick(), Err(ExecutionError::IterationBudgetExceeded { limit: 1 }));
    assert_eq!(frame.finish(Ok(())), Err(ExecutionError::IterationBudgetExceeded { limit: 1 }));
}

#[test]
fn the_interrupt_is_polled_at_the_frequency() {
    let flag = Flag(true);
    let options = RuntimeOptions::default().with_interrupt_check_frequency(3);
    let mut frame = Frame::new(&options, Some(&flag));
    assert_eq!(frame.tick(), Ok(()));
    assert_eq!(frame.tick(), Ok(()));
    assert_eq!(frame.tick(), Err(ExecutionError::Interrupted));
    assert_eq!(frame.abort_error(), Some(ExecutionError::Interrupted));
}

#[test]
fn an_interrupt_wins_over_the_budget() {
    let options = RuntimeOptions::default();
    let mut frame: Frame<Flag> = Frame::new(&options, None);
    frame.record(Abort::Budget);
    frame.record(Abort::Interrupted);
    assert_eq!(frame.abort_error(), Some(ExecutionError::Interrupted));
    frame.record(Abort::Budget);
    assert_eq!(frame.abort_error(), Some(ExecutionError::Interrupted));
}

#[test]
fn observing_an_interrupt_is_sticky() {
    let flag = Flag(true);
    let options = RuntimeOptions::default();
    let mut frame = Frame::new(&options, Some(&flag));
    assert!(frame.observe_interrupt());
    let quiet = Flag(false);
    let mut other = Frame::new(&options, Some(&quiet));
    assert!(!other.observe_interrupt());
    assert_eq!(frame.finish(Ok(())), Err(ExecutionError::Interrupted));
}

#[test]
fn deadlines_and_budgets() {
    let past = Instant::now();
    let deadline = Deadline::at(past);
    assert_eq!(deadline.instant(), past);
    assert!(deadline.is_interrupted());
    let later = Deadline::at(Instant::now() + Duration::from_secs(3600));
    assert!(!later.is_interrupted());
    assert!(ExecutionBudget::unlimited().is_unlimited());
    assert_eq!(ExecutionBudget::unlimited().check(), Ok(()));
    let budget = ExecutionBudget::with_deadline(past);
    assert_eq!(budget.deadline(), Some(past));
    assert_eq!(budget.check(), Err(ExecutionError::DeadlineExceeded));
    let budget = ExecutionBudget::with_deadline(Instant::now() + Duration::from_secs(3600));
    assert_eq!(budget.check(), Ok(()));
    assert!(ExecutionBudget::default().is_unlimited());
}
