use vstd::prelude::*;

verus! {

/// Retry settings. Durations are in milliseconds; the backoff grows by
/// `multiplier_percent` percent of itself after each failure.
#[derive(Debug, Clone, Copy)]
pub struct RetryConfig {
    /// Invocations made at most, the first included.
    pub max_attempts: usize,
    /// Wait after the first failure.
    pub initial_backoff_ms: u64,
    /// Longest wait.
    pub max_backoff_ms: u64,
    /// Growth of the wait, in percent (200 doubles it).
    pub multiplier_percent: u64,
}

impl Default for RetryConfig {
    /// Three attempts, waiting 100 ms, then twice as long each time, at
    /// most 30 s.
    fn default() -> (r: RetryConfig)
        ensures
            r.max_attempts == 3,
            r.initial_backoff_ms == 100,
            r.max_backoff_ms == 30000,
            r.multiplier_percent == 200,
    {
        RetryConfig { max_attempts: 3, initial_backoff_ms: 100, max_backoff_ms: 30000, multiplier_percent: 200 }
    }
}

/// The wait that follows a wait of `backoff`.
pub open spec fn next_backoff(config: RetryConfig, backoff: u64) -> int {
    let grown = backoff * config.multiplier_percent / 100;
    if grown < config.max_backoff_ms {
        grown
    } else {
        config.max_backoff_ms as int
    }
}

/// The `failures`-th failure in a row ends the retrying.
pub open spec fn gives_up(config: RetryConfig, failures: nat) -> bool {
    failures >= config.max_attempts
}

/// What to do after a failed attempt.
#[derive(Debug, Clone, Copy, PartialEq, Eq, Structural)]
pub enum RetryDecision {
    /// Wait this many milliseconds, then invoke again.
    Retry(u64),
    /// Report the last failure.
    GiveUp,
}

/// Progress of one retried operation.
#[derive(Debug, Clone, Copy)]
pub struct RetryState {
    /// Failed attempts so far.
    pub failures: usize,
    /// Wait before the next attempt.
    pub backoff_ms: u64,
}

impl RetryState {
    /// No attempt made yet.
    pub fn new(config: &RetryConfig) -> (r: RetryState)
        ensures
            r.failures == 0,
            r.backoff_ms == config.initial_backoff_ms,
    {
        RetryState { failures: 0, backoff_ms: config.initial_backoff_ms }
    }

    /// Records a failed attempt: gives up once `max_attempts` attempts have
    /// failed, otherwise waits the current backoff and grows it, capped at
    /// `max_backoff_ms`.
    pub fn on_failure(&mut self, config: &RetryConfig) -> (d: RetryDecision)
        requires
            old(self).failures < usize::MAX,
        ensures
            final(self).failures == old(self).failures + 1,
            gives_up(*config, final(self).failures as nat) ==> d == RetryDecision::GiveUp
                && final(self).backoff_ms == old(self).backoff_ms,
            !gives_up(*config, final(self).failures as nat) ==> d == RetryDecision::Retry(old(self).backoff_ms)
                && final(self).backoff_ms == next_backoff(*config, old(self).backoff_ms),
    {
        self.failures = self.failures + 1;
        if self.failures >= config.max_attempts {
            return RetryDecision::GiveUp;
        }
        let wait = self.backoff_ms;
        let w: u128 = wait as u128;
        let m: u128 = config.multiplier_percent as u128;
        assert(w * m <= 0xffff_ffff_ffff_ffffu128 * 0xffff_ffff_ffff_ffffu128) by (nonlinear_arith)
            requires
                w <= 0xffff_ffff_ffff_ffffu128,
                m <= 0xffff_ffff_ffff_ffffu128,
        ;
        let grown: u128 = w * m / 100;
        if grown < config.max_backoff_ms as u128 {
            self.backoff_ms = grown as u64;
        } else {
            self.backoff_ms = config.max_backoff_ms;
        }
        RetryDecision::Retry(wait)
    }
}

/// An operation that fails on every attempt is invoked exactly
/// `max_attempts` times (once when `max_attempts` is 0): every failure
/// before that one is followed by another attempt, and that one ends the
/// retrying.
pub proof fn lemma_permanent_failure_attempts(config: RetryConfig)
    ensures
        forall|k: nat| 1 <= k < config.max_attempts ==> !#[trigger] gives_up(config, k),
        gives_up(config, if config.max_attempts == 0 { 1nat } else { config.max_attempts as nat }),
{
}

} // verus!
