use conject_macro::retry::{retry, RetryStep};

#[test]
fn retry_finishes_on_success() {
    assert!(matches!(retry(3, true), RetryStep::Finish));
    assert!(matches!(retry(0, true), RetryStep::Finish));
}

#[test]
fn retry_finishes_when_no_retry_is_left() {
    assert!(matches!(retry(0, false), RetryStep::Finish));
}

#[test]
fn retry_waits_and_counts_down_on_failure() {
    assert!(matches!(retry(3, false), RetryStep::WaitAndRetry(2)));
    assert!(matches!(retry(1, false), RetryStep::WaitAndRetry(0)));
}

#[test]
fn retry_runs_at_most_times_plus_one_attempts() {
    let mut attempts = 0;
    let mut times = 4;
    loop {
        attempts += 1;
        match retry(times, false) {
            RetryStep::Finish => break,
            RetryStep::WaitAndRetry(t) => times = t,
        }
    }
    assert_eq!(attempts, 5);
}
