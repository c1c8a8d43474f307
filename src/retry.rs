//! The decisions of retry with exponential backoff, as a state machine: the
//! caller makes each attempt, reports a failure, and is told whether to wait
//! and retry or to give up.
use vstd::prelude::*;
use crate::types::RetryConfig;

verus! {

/// The delay that follows `delay` after one more failure: grown by the
/// multiplier (rounded down) and capped at the maximum.
pub open spec fn next_delay_spec(p: RetryConfig, delay: u64) -> u64 {
    let grown = delay as int * p.backoff_multiplier_percent as int / 100;
    if grown < p.max_delay_ms as int {
        grown as u64
    } else {
        p.max_delay_ms
    }
}

/// Computes [`next_delay_spec`].
pub fn next_delay(policy: &RetryConfig, delay_ms: u64) -> (r: u64)
    ensures
        r == next_delay_spec(*policy, delay_ms),
{
    let d: u128 = delay_ms as u128;
    let m: u128 = policy.backoff_multiplier_percent as u128;
    assert(d * m <= 0xffff_ffff_ffff_ffffu128 * 0xffff_ffff_ffff_ffffu128) by (nonlinear_arith)
        requires d <= 0xffff_ffff_ffff_ffffu128, m <= 0xffff_ffff_ffff_ffffu128;
    let grown: u128 = d * m / 100;
    if grown < policy.max_delay_ms as u128 {
        grown as u64
    } else {
        policy.max_delay_ms
    }
}

/// Where a retried call stands: the number of the attempt under way (from 0)
/// and the delay to wait before the next one.
#[derive(Debug, Clone, Copy, PartialEq, Eq, Structural)]
pub struct RetryState {
    pub attempt: usize,
    pub delay_ms: u64,
}

/// What to do after a failed attempt.
#[derive(Debug, Clone, Copy, PartialEq, Eq, Structural)]
pub enum RetryStep {
    /// Wait this long, then attempt again.
    Retry { delay_ms: u64 },
    /// That was the last allowed attempt: return its error.
    GiveUp,
}

/// The state before the first attempt.
pub open spec fn initial_state(p: RetryConfig) -> RetryState {
    RetryState { attempt: 0, delay_ms: p.initial_delay_ms }
}

/// The step taken after a failure in state `s`, and the state that follows.
pub open spec fn after_failure_spec(p: RetryConfig, s: RetryState) -> (RetryStep, RetryState) {
    if s.attempt >= p.max_retries {
        (RetryStep::GiveUp, s)
    } else {
        (
            RetryStep::Retry { delay_ms: s.delay_ms },
            RetryState { attempt: (s.attempt + 1) as usize, delay_ms: next_delay_spec(p, s.delay_ms) },
        )
    }
}

impl RetryState {
    /// The state before the first attempt: attempt 0, waiting the initial delay.
    pub fn start(policy: &RetryConfig) -> (r: RetryState)
        ensures
            r == initial_state(*policy),
    {
        RetryState { attempt: 0, delay_ms: policy.initial_delay_ms }
    }

    /// Records a failed attempt. The last allowed attempt (number
    /// `max_retries`) gives up; any earlier one retries after the current
    /// delay, and the delay then grows by [`next_delay_spec`].
    pub fn after_failure(&mut self, policy: &RetryConfig) -> (r: RetryStep)
        requires
            old(self).attempt <= policy.max_retries,
        ensures
            (r, *final(self)) == after_failure_spec(*policy, *old(self)),
            final(self).attempt <= policy.max_retries,
    {
        if self.attempt >= policy.max_retries {
            RetryStep::GiveUp
        } else {
            let d = self.delay_ms;
            self.delay_ms = next_delay(policy, d);
            self.attempt = self.attempt + 1;
            RetryStep::Retry { delay_ms: d }
        }
    }
}

/// Number of attempts made from state `s` when attempt `a` succeeds exactly
/// where `succeeds(a)`: the run stops at the first success or when it gives up.
pub open spec fn attempts_made(p: RetryConfig, s: RetryState, succeeds: spec_fn(nat) -> bool) -> nat
    decreases p.max_retries - s.attempt,
{
    if succeeds(s.attempt as nat) {
        1
    } else {
        match after_failure_spec(p, s).0 {
            RetryStep::GiveUp => 1,
            RetryStep::Retry { .. } => 1 + attempts_made(p, after_failure_spec(p, s).1, succeeds),
        }
    }
}

proof fn lemma_attempts_from(p: RetryConfig, s: RetryState, succeeds: spec_fn(nat) -> bool)
    requires
        s.attempt <= p.max_retries,
    ensures
        attempts_made(p, s, succeeds) <= p.max_retries + 1 - s.attempt,
        (forall|a: nat| !#[trigger] succeeds(a)) ==> attempts_made(p, s, succeeds) == p.max_retries + 1 - s.attempt,
    decreases p.max_retries - s.attempt,
{
    if !succeeds(s.attempt as nat) && s.attempt < p.max_retries {
        lemma_attempts_from(p, after_failure_spec(p, s).1, succeeds);
    }
}

/// Retry bound: whatever the outcomes, a retried call makes at most
/// `max_retries + 1` attempts; when every attempt fails it makes exactly that
/// many and ends by giving up, returning the last attempt's error.
pub proof fn lemma_retry_bound(p: RetryConfig, succeeds: spec_fn(nat) -> bool)
    ensures
        1 <= attempts_made(p, initial_state(p), succeeds) <= p.max_retries + 1,
        (forall|a: nat| !#[trigger] succeeds(a)) ==> attempts_made(p, initial_state(p), succeeds) == p.max_retries + 1,
        (forall|a: nat| !#[trigger] succeeds(a)) ==> after_failure_spec(p, failed_state(p, p.max_retries as nat)).0 == RetryStep::GiveUp,
{
    lemma_attempts_from(p, initial_state(p), succeeds);
    lemma_failed_state(p, p.max_retries as nat);
}

/// The delay before retry number `i + 1`: the initial delay, grown by
/// [`next_delay_spec`] once per earlier retry.
pub open spec fn delay_after(p: RetryConfig, i: nat) -> u64
    decreases i,
{
    if i == 0 {
        p.initial_delay_ms
    } else {
        next_delay_spec(p, delay_after(p, (i - 1) as nat))
    }
}

/// The state after `i` failed attempts.
pub open spec fn failed_state(p: RetryConfig, i: nat) -> RetryState
    decreases i,
{
    if i == 0 {
        initial_state(p)
    } else {
        after_failure_spec(p, failed_state(p, (i - 1) as nat)).1
    }
}

proof fn lemma_failed_state(p: RetryConfig, i: nat)
    requires
        i <= p.max_retries,
    ensures
        failed_state(p, i) == (RetryState { attempt: i as usize, delay_ms: delay_after(p, i) }),
    decreases i,
{
    if i > 0 {
        lemma_failed_state(p, (i - 1) as nat);
    }
}

/// Backoff growth: after failure number `i` (counting from 0) that is not the
/// last allowed one, the call waits `delay_after(i)`, and successive delays
/// satisfy `delay[i + 1] == min(delay[i] * multiplier, max_delay)`.
pub proof fn lemma_backoff_growth(p: RetryConfig, i: nat)
    requires
        i < p.max_retries,
    ensures
        after_failure_spec(p, failed_state(p, i)).0 == (RetryStep::Retry { delay_ms: delay_after(p, i) }),
        delay_after(p, i + 1) as int == if delay_after(p, i) as int * p.backoff_multiplier_percent as int / 100
            < p.max_delay_ms as int {
            delay_after(p, i) as int * p.backoff_multiplier_percent as int / 100
        } else {
            p.max_delay_ms as int
        },
{
    lemma_failed_state(p, i);
    let d = delay_after(p, i) as int;
    let m = p.backoff_multiplier_percent as int;
    assert(0 <= d * m / 100 <= d * m) by (nonlinear_arith)
        requires 0 <= d, 0 <= m;
}

} // verus!
