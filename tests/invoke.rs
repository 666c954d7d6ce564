use flock_core::invoke::{next_step, InvokeOutcome, RetryDecision, RetryPolicy};

/// Sends one payload through a mock platform that refuses the first
/// `refusals` attempts, as the host's loop does.
fn deliver(policy: RetryPolicy, refusals: usize, payload: &[u8], received: &mut Vec<Vec<u8>>) -> (u64, RetryDecision) {
    let mut attempts: u64 = 0;
    loop {
        attempts += 1;
        received.push(payload.to_vec());
        let outcome = if received.len() <= refusals { InvokeOutcome::Rejected(429) } else { InvokeOutcome::Accepted };
        match next_step(policy, attempts, outcome) {
            RetryDecision::RetryAfter(_) => continue,
            other => return (attempts, other),
        }
    }
}

#[test]
fn retry_until_third_attempt_accepted() {
    let mut received = Vec::new();
    let (attempts, end) = deliver(RetryPolicy::Unbounded, 2, b"fragment-0", &mut received);
    assert_eq!(attempts, 3);
    assert_eq!(end, RetryDecision::Delivered);
    assert_eq!(received.len(), 3);
    assert!(received.iter().all(|p| p == b"fragment-0"));
}

#[test]
fn unbounded_retries_without_delay() {
    assert_eq!(next_step(RetryPolicy::Unbounded, 1000, InvokeOutcome::Rejected(500)), RetryDecision::RetryAfter(0));
    assert_eq!(next_step(RetryPolicy::Unbounded, 1, InvokeOutcome::Accepted), RetryDecision::Delivered);
}

#[test]
fn bounded_backoff_doubles_and_caps() {
    let p = RetryPolicy::Bounded { max_attempts: 6, base_delay_ms: 100, max_delay_ms: 1000 };
    assert_eq!(next_step(p, 1, InvokeOutcome::Rejected(429)), RetryDecision::RetryAfter(100));
    assert_eq!(next_step(p, 2, InvokeOutcome::Rejected(429)), RetryDecision::RetryAfter(200));
    assert_eq!(next_step(p, 3, InvokeOutcome::Rejected(429)), RetryDecision::RetryAfter(400));
    assert_eq!(next_step(p, 4, InvokeOutcome::Rejected(429)), RetryDecision::RetryAfter(800));
    assert_eq!(next_step(p, 5, InvokeOutcome::Rejected(429)), RetryDecision::RetryAfter(1000));
    assert_eq!(next_step(p, 6, InvokeOutcome::Rejected(429)), RetryDecision::Failed);
    assert_eq!(next_step(p, 6, InvokeOutcome::Accepted), RetryDecision::Delivered);
}

#[test]
fn bounded_gives_up_after_last_attempt() {
    let mut received = Vec::new();
    let p = RetryPolicy::Bounded { max_attempts: 3, base_delay_ms: 0, max_delay_ms: 0 };
    let (attempts, end) = deliver(p, 5, b"x", &mut received);
    assert_eq!(attempts, 3);
    assert_eq!(end, RetryDecision::Failed);
}
