//! Decisions of the invocation layer: whether an attempt to invoke a
//! downstream function is done, is tried again and after how long, or is
//! given up. The caller performs the attempts and the waits.
use vstd::prelude::*;

verus! {

/// What the platform answered to one asynchronous invocation.
#[derive(PartialEq, Eq, Structural, Clone, Copy, Debug)]
pub enum InvokeOutcome {
    /// The platform queued the invocation.
    Accepted,
    /// The platform refused it, with this status code.
    Rejected(u16),
}

/// How refused invocations are tried again.
#[derive(PartialEq, Eq, Structural, Clone, Copy, Debug)]
pub enum RetryPolicy {
    /// Try the identical invocation again at once, without end.
    Unbounded,
    /// At most `max_attempts` attempts; the wait before attempt `n + 1`
    /// doubles from `base_delay_ms`, capped at `max_delay_ms`.
    Bounded { max_attempts: u64, base_delay_ms: u64, max_delay_ms: u64 },
}

/// What to do after an attempt.
#[derive(PartialEq, Eq, Structural, Clone, Copy, Debug)]
pub enum RetryDecision {
    /// The invocation was accepted: nothing more to do.
    Delivered,
    /// Send the identical invocation again after this many milliseconds.
    RetryAfter(u64),
    /// Give up: the attempts are spent.
    Failed,
}

/// `base` doubled `n` times, or `cap` if that is larger than `cap`.
pub open spec fn backoff(base: nat, n: nat, cap: nat) -> nat
    decreases n,
{
    if n == 0 {
        if base <= cap {
            base
        } else {
            cap
        }
    } else {
        let prev = backoff(base, (n - 1) as nat, cap);
        if 2 * prev <= cap {
            2 * prev
        } else {
            cap
        }
    }
}

/// The decision after attempt number `attempts` (counting from one) had `outcome`.
pub open spec fn decide(policy: RetryPolicy, attempts: nat, outcome: InvokeOutcome) -> RetryDecision {
    match outcome {
        InvokeOutcome::Accepted => RetryDecision::Delivered,
        InvokeOutcome::Rejected(_) => match policy {
            RetryPolicy::Unbounded => RetryDecision::RetryAfter(0),
            RetryPolicy::Bounded { max_attempts, base_delay_ms, max_delay_ms } => if attempts
                >= max_attempts {
                RetryDecision::Failed
            } else {
                RetryDecision::RetryAfter(
                    backoff(base_delay_ms as nat, (attempts - 1) as nat, max_delay_ms as nat) as u64,
                )
            },
        },
    }
}

proof fn lemma_backoff_le_cap(base: nat, n: nat, cap: nat)
    ensures
        backoff(base, n, cap) <= cap,
    decreases n,
{
    if n > 0 {
        lemma_backoff_le_cap(base, (n - 1) as nat, cap);
    }
}

/// Decides what follows attempt number `attempts` of one invocation.
pub fn next_step(policy: RetryPolicy, attempts: u64, outcome: InvokeOutcome) -> (r: RetryDecision)
    requires
        attempts >= 1,
    ensures
        r == decide(policy, attempts as nat, outcome),
{
    match outcome {
        InvokeOutcome::Accepted => RetryDecision::Delivered,
        InvokeOutcome::Rejected(_) => match policy {
            RetryPolicy::Unbounded => RetryDecision::RetryAfter(0),
            RetryPolicy::Bounded { max_attempts, base_delay_ms, max_delay_ms } => {
                if attempts >= max_attempts {
                    return RetryDecision::Failed;
                }
                let mut delay: u64 = if base_delay_ms <= max_delay_ms {
                    base_delay_ms
                } else {
                    max_delay_ms
                };
                let mut n: u64 = 0;
                while n < attempts - 1
                    invariant
                        n <= attempts - 1,
                        delay as nat == backoff(base_delay_ms as nat, n as nat, max_delay_ms as nat),
                    decreases attempts - 1 - n,
                {
                    proof {
                        lemma_backoff_le_cap(base_delay_ms as nat, n as nat, max_delay_ms as nat);
                    }
                    delay = if delay <= max_delay_ms / 2 {
                        2 * delay
                    } else {
                        max_delay_ms
                    };
                    n = n + 1;
                }
                RetryDecision::RetryAfter(delay)
            },
        },
    }
}

} // verus!
