use laser_lockdown::sd_utils::{DummyTimeSource, FileTime, Retry, RetryStep, MAX_RETRIES};

#[test]
fn success_ends_the_attempts() {
    let mut r = Retry::new();
    assert_eq!(r.retry_with_backoff(true), RetryStep::Done);
    let mut r = Retry::new();
    assert_eq!(r.retry_with_backoff(false), RetryStep::RetryAfter { ms: 500 });
    assert_eq!(r.retry_with_backoff(true), RetryStep::Done);
}

#[test]
fn fourth_failure_is_the_last() {
    let mut r = Retry::new();
    for _ in 1..MAX_RETRIES {
        assert_eq!(r.retry_with_backoff(false), RetryStep::RetryAfter { ms: 500 });
    }
    assert_eq!(r.retry_with_backoff(false), RetryStep::GiveUp);
}

#[test]
fn fourth_attempt_can_succeed() {
    let mut r = Retry::new();
    for _ in 0..3 {
        r.retry_with_backoff(false);
    }
    assert_eq!(r.retry_with_backoff(true), RetryStep::Done);
}

#[test]
fn files_are_stamped_with_the_beginning_of_1970() {
    let t = DummyTimeSource.get_timestamp();
    let zero = FileTime {
        year_since_1970: 0,
        zero_indexed_month: 0,
        zero_indexed_day: 0,
        hours: 0,
        minutes: 0,
        seconds: 0,
    };
    assert_eq!(t, zero);
}
