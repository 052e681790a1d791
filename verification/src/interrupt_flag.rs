use vstd::prelude::*;
use crate::dependency_set::share;
use std::sync::atomic::AtomicBool;
use std::sync::atomic::Ordering;
use std::sync::Arc;
use std::time::Duration;
use std::time::Instant;

verus! {

/// Why a reasoning task was interrupted.
#[derive(Clone, Copy, Debug, PartialEq, Eq, Structural, Hash)]
pub enum InterruptError {
    Interrupted,
    Timeout,
}

/// A point in time of the monotonic clock.
#[verifier::external_type_specification]
#[verifier::external_body]
pub struct ExInstant(Instant);

/// The current instant (`Instant::now`); it depends on the clock, so nothing
/// is stated of it.
#[verifier::external_body]
fn now() -> Instant {
    Instant::now()
}

/// The time elapsed since `start` (`Instant::elapsed`); it depends on the
/// clock, so nothing is stated of it.
#[verifier::external_body]
fn elapsed(start: &Instant) -> Duration {
    start.elapsed()
}

/// The whole milliseconds of `span` (`Duration::as_millis`); nothing is
/// stated of them.
#[verifier::external_body]
fn whole_millis(span: &Duration) -> u128 {
    span.as_millis()
}

/// What a check answers, given whether the interrupt latch is set and whether
/// the task's time is up: an explicit interrupt takes precedence.
pub open spec fn outcome(interrupted: bool, timed_out: bool) -> Result<(), InterruptError> {
    if interrupted {
        Err(InterruptError::Interrupted)
    } else if timed_out {
        Err(InterruptError::Timeout)
    } else {
        Ok(())
    }
}

/// The answer of a check from the state of the latch and of the clock.
pub fn interrupt_outcome(interrupted: bool, timed_out: bool) -> (r: Result<(), InterruptError>)
    ensures
        r == outcome(interrupted, timed_out),
{
    if interrupted {
        Err(InterruptError::Interrupted)
    } else if timed_out {
        Err(InterruptError::Timeout)
    } else {
        Ok(())
    }
}

/// Whether a check could report an interrupt soon, given whether a timeout
/// is set and whether the latch was read as set.
pub fn can_fire(has_timeout: bool, latched: bool) -> (r: bool)
    ensures
        r == (has_timeout || latched),
{
    has_timeout || latched
}

/// Whether a task that has run for `elapsed_millis` whole milliseconds has
/// used up its timeout of `timeout_millis` milliseconds.
pub fn timed_out(elapsed_millis: u128, timeout_millis: u64) -> (r: bool)
    ensures
        r == (elapsed_millis >= timeout_millis as u128),
{
    elapsed_millis >= timeout_millis as u128
}

/// Signals that the current reasoning task should stop: explicitly, through
/// the shared latch, or because the task's timeout elapsed.
pub struct InterruptFlag {
    timeout_millis: Option<u64>,
    interrupted: Arc<AtomicBool>,
    task_start: Option<Instant>,
}

/// Interrupts an `InterruptFlag` from elsewhere, through its shared latch.
pub struct InterruptHandle {
    interrupted: Arc<AtomicBool>,
}

impl Clone for InterruptHandle {
    fn clone(&self) -> (r: Self)
        ensures
            r.latch() == self.latch(),
    {
        InterruptHandle { interrupted: share(&self.interrupted) }
    }
}

impl InterruptHandle {
    /// The shared latch.
    pub closed spec fn latch(&self) -> AtomicBool {
        *self.interrupted
    }

    pub fn interrupt(&self) {
        self.interrupted.store(true, Ordering::Release);
    }
}

impl InterruptFlag {
    /// The per-task timeout in milliseconds, if any.
    pub closed spec fn timeout(&self) -> Option<u64> {
        self.timeout_millis
    }

    /// Whether a task is running, so that its time counts.
    pub closed spec fn task_started(&self) -> bool {
        self.task_start is Some
    }

    /// The shared latch.
    pub closed spec fn latch(&self) -> AtomicBool {
        *self.interrupted
    }

    /// A flag with no task running; a positive argument is the per-task
    /// timeout in milliseconds, any other value means no timeout.
    pub fn new(individual_task_timeout_millis: i64) -> (r: InterruptFlag)
        ensures
            r.timeout() == if individual_task_timeout_millis > 0 {
                Some(individual_task_timeout_millis as u64)
            } else {
                None
            },
            !r.task_started(),
    {
        let timeout_millis = if individual_task_timeout_millis > 0 {
            Some(individual_task_timeout_millis as u64)
        } else {
            None
        };
        InterruptFlag {
            timeout_millis,
            interrupted: Arc::new(AtomicBool::new(false)),
            task_start: None,
        }
    }

    /// `Err(Interrupted)` when the latch is set, else `Err(Timeout)` when a
    /// task runs longer than the timeout, else `Ok`. Without a timeout or a
    /// running task the answer is never `Timeout`.
    pub fn check_interrupt(&self) -> (r: Result<(), InterruptError>)
        ensures
            (self.timeout() is None || !self.task_started()) ==> r != Err::<(), InterruptError>(
                InterruptError::Timeout,
            ),
    {
        let interrupted = self.interrupted.load(Ordering::Acquire);
        let timed_out = self.time_is_up();
        interrupt_outcome(interrupted, timed_out)
    }

    /// Whether a task runs and has run for at least the timeout.
    fn time_is_up(&self) -> (r: bool)
        ensures
            r ==> self.timeout() is Some && self.task_started(),
    {
        match &self.task_start {
            Some(start) => self.timeout_reached(whole_millis(&elapsed(start))),
            None => false,
        }
    }

    /// Whether a task that has run for `elapsed_millis` whole milliseconds
    /// since `start_task` has used up the timeout: a timeout is set, a task
    /// runs, and at least the configured number of milliseconds has passed.
    pub fn timeout_reached(&self, elapsed_millis: u128) -> (r: bool)
        ensures
            r <==> (self.timeout() is Some && self.task_started() && elapsed_millis
                >= self.timeout()->Some_0 as u128),
    {
        match (&self.timeout_millis, &self.task_start) {
            (Some(timeout), Some(_)) => timed_out(elapsed_millis, *timeout),
            _ => false,
        }
    }

    /// The answer of a check when the latch reads `latched` and the running
    /// task has taken `elapsed_millis` whole milliseconds: `Err(Interrupted)`
    /// exactly when the latch is set; `Err(Timeout)` exactly when the latch
    /// is clear, a timeout is set, a task runs and at least the configured
    /// number of milliseconds has passed; else `Ok`.
    pub fn check_interrupt_given(&self, latched: bool, elapsed_millis: u128) -> (r: Result<
        (),
        InterruptError,
    >)
        ensures
            (r == Err::<(), InterruptError>(InterruptError::Interrupted)) <==> latched,
            (r == Err::<(), InterruptError>(InterruptError::Timeout)) <==> (!latched && self.timeout() is Some
                && self.task_started() && elapsed_millis >= self.timeout()->Some_0 as u128),
            r is Ok <==> (!latched && !(self.timeout() is Some && self.task_started() && elapsed_millis
                >= self.timeout()->Some_0 as u128)),
    {
        let timed_out = self.timeout_reached(elapsed_millis);
        interrupt_outcome(latched, timed_out)
    }

    /// Whether a check could report an interrupt soon: a timeout is set or the
    /// latch already is.
    pub fn poll_can_fire(&self) -> (r: bool)
        ensures
            self.timeout() is Some ==> r,
    {
        let latched = self.interrupted.load(Ordering::Acquire);
        can_fire(self.timeout_millis.is_some(), latched)
    }

    /// A handle that shares this flag's latch.
    pub fn interrupt_handle(&self) -> (r: InterruptHandle)
        ensures
            r.latch() == self.latch(),
    {
        InterruptHandle { interrupted: share(&self.interrupted) }
    }

    /// A flag without timeout that shares `handle`'s latch.
    pub fn from_handle(handle: &InterruptHandle) -> (r: InterruptFlag)
        ensures
            r.latch() == handle.latch(),
            r.timeout() is None,
            !r.task_started(),
    {
        InterruptFlag { timeout_millis: None, interrupted: share(&handle.interrupted), task_start: None }
    }

    pub fn interrupt(&self) {
        self.interrupted.store(true, Ordering::Release);
    }

    /// Clears the latch and starts timing a task.
    pub fn start_task(&mut self)
        ensures
            final(self).task_started(),
            final(self).timeout() == old(self).timeout(),
            final(self).latch() == old(self).latch(),
    {
        self.interrupted.store(false, Ordering::Release);
        self.task_start = Some(now());
    }

    /// Stops timing the task and clears the latch.
    pub fn end_task(&mut self)
        ensures
            !final(self).task_started(),
            final(self).timeout() == old(self).timeout(),
            final(self).latch() == old(self).latch(),
    {
        self.task_start = None;
        self.interrupted.store(false, Ordering::Release);
    }

    /// There is no timer to release: the timeout is checked at each check.
    pub fn dispose(&self) {
    }
}

} // verus!
