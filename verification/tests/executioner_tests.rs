use ome::executioner::{after_attempt, NextStep, MAX_RETRIES};

#[test]
fn delivered_is_done() {
    assert_eq!(after_attempt(0, true), NextStep::Done);
    assert_eq!(after_attempt(3, true), NextStep::Done);
    assert_eq!(after_attempt(u32::MAX, true), NextStep::Done);
}

#[test]
fn backoff_quadruples() {
    assert_eq!(after_attempt(0, false), NextStep::RetryAfter(100));
    assert_eq!(after_attempt(1, false), NextStep::RetryAfter(400));
    assert_eq!(after_attempt(2, false), NextStep::RetryAfter(1600));
}

#[test]
fn gives_up_after_the_last_retry() {
    assert_eq!(MAX_RETRIES, 3);
    assert_eq!(after_attempt(3, false), NextStep::GiveUp);
    assert_eq!(after_attempt(4, false), NextStep::GiveUp);
    assert_eq!(after_attempt(u32::MAX, false), NextStep::GiveUp);
}
