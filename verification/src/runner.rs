//! The command runner's timeout and retry discipline.
//!
//! The external version-control tool runs as a child process that an
//! unverified shell spawns, polls, kills and sleeps around; every decision
//! in that loop is taken here. Each attempt polls completion on a fixed
//! interval under a hard wall-clock budget; a budget overrun kills the child
//! and retries the whole attempt; a non-zero exit fails the run at once; and
//! after [`MAX_ATTEMPTS`] timed-out attempts the run fails for good.

use vstd::prelude::*;
use crate::error::Error;

verus! {

/// Wall-clock budget for one attempt, in milliseconds.
pub const ATTEMPT_BUDGET_MS: u64 = 3000;

/// Pause between completion polls, in milliseconds.
pub const POLL_INTERVAL_MS: u64 = 250;

/// How many attempts are made before the run fails for good.
pub const MAX_ATTEMPTS: u32 = 5;

/// What one poll of the child process observed.
pub enum PollEvent {
    /// The child exited with a successful status.
    ExitedOk,
    /// The child exited with a non-zero status.
    ExitedNonZero,
    /// The child has not exited yet.
    StillRunning,
    /// Asking for the child's status failed.
    WaitError,
}

/// What the attempt loop does next after one poll.
pub enum PollDecision {
    /// Clean exit: the whole run succeeds.
    Succeed,
    /// The whole run fails at once; timeouts are the only retried failure.
    Fail(Error),
    /// Budget overrun: kill the child and count one timed-out attempt.
    KillAndRetry,
    /// Still within budget: sleep one poll interval and poll again.
    SleepAndPoll,
}

/// Decide what the attempt loop does after one poll, from the time elapsed
/// since the spawn and what the poll observed. The budget check comes first,
/// as a hung child never reports anything.
pub fn poll_step(elapsed_ms: u64, ev: &PollEvent) -> (r: PollDecision)
    ensures
        elapsed_ms > ATTEMPT_BUDGET_MS ==> r is KillAndRetry,
        elapsed_ms <= ATTEMPT_BUDGET_MS && ev is ExitedOk ==> r is Succeed,
        elapsed_ms <= ATTEMPT_BUDGET_MS && ev is ExitedNonZero ==> (r matches PollDecision::Fail(
            e,
        ) && e is CommandFailed),
        elapsed_ms <= ATTEMPT_BUDGET_MS && ev is StillRunning ==> r is SleepAndPoll,
        elapsed_ms <= ATTEMPT_BUDGET_MS && ev is WaitError ==> (r matches PollDecision::Fail(e)
            && e is WaitFailed),
{
    if elapsed_ms > ATTEMPT_BUDGET_MS {
        PollDecision::KillAndRetry
    } else {
        match ev {
            PollEvent::ExitedOk => PollDecision::Succeed,
            PollEvent::ExitedNonZero => PollDecision::Fail(Error::CommandFailed),
            PollEvent::StillRunning => PollDecision::SleepAndPoll,
            PollEvent::WaitError => PollDecision::Fail(Error::WaitFailed),
        }
    }
}

/// How one whole attempt ended.
pub enum AttemptOutcome {
    /// The child exited cleanly within the budget.
    Success,
    /// The child failed within the budget; carries the run's error.
    Failed(Error),
    /// The attempt overran its budget and the child was killed.
    TimedOut,
}

/// What the run does after one attempt.
pub enum RunStep {
    /// Make another attempt, the one with this index.
    Retry(u32),
    /// The run succeeded.
    Succeeded,
    /// The run failed for good.
    Failed(Error),
}

/// What [`run_step`] returns, as the specification sees it.
pub open spec fn run_step_spec(attempts_done: u32, outcome: AttemptOutcome) -> RunStep {
    match outcome {
        AttemptOutcome::Success => RunStep::Succeeded,
        AttemptOutcome::Failed(e) => RunStep::Failed(e),
        AttemptOutcome::TimedOut => {
            if attempts_done + 1 < MAX_ATTEMPTS {
                RunStep::Retry((attempts_done + 1) as u32)
            } else {
                RunStep::Failed(Error::TimedOutTooManyTimes)
            }
        },
    }
}

/// Decide what the run does after the attempt with index `attempts_done`
/// (counting from zero) ended as `outcome`: succeed, fail at once, retry, or
/// — once [`MAX_ATTEMPTS`] attempts have all timed out — fail for good with
/// the timed-out-too-many-times error.
pub fn run_step(attempts_done: u32, outcome: AttemptOutcome) -> (r: RunStep)
    requires
        attempts_done < MAX_ATTEMPTS,
    ensures
        r == run_step_spec(attempts_done, outcome),
{
    match outcome {
        AttemptOutcome::Success => RunStep::Succeeded,
        AttemptOutcome::Failed(e) => RunStep::Failed(e),
        AttemptOutcome::TimedOut => {
            if attempts_done + 1 < MAX_ATTEMPTS {
                RunStep::Retry(attempts_done + 1)
            } else {
                RunStep::Failed(Error::TimedOutTooManyTimes)
            }
        },
    }
}

/// A run whose every attempt overruns its budget makes exactly
/// [`MAX_ATTEMPTS`] attempts: each of the first four steps asks for the next
/// attempt, and the fifth fails with the timed-out-too-many-times error —
/// never fewer attempts, never more.
pub proof fn lemma_all_timeouts_exhaust_attempts(outcomes: Seq<AttemptOutcome>)
    requires
        outcomes.len() == MAX_ATTEMPTS,
        forall|i: int| 0 <= i < outcomes.len() ==> outcomes[i] is TimedOut,
    ensures
        forall|k: int|
            0 <= k < MAX_ATTEMPTS - 1 ==> run_step_spec(k as u32, #[trigger] outcomes[k])
                == RunStep::Retry((k + 1) as u32),
        run_step_spec((MAX_ATTEMPTS - 1) as u32, outcomes[MAX_ATTEMPTS - 1])
            == RunStep::Failed(Error::TimedOutTooManyTimes),
{
}

} // verus!
