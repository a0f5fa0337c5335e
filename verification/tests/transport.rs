use agni::transport::{Retry, TransportError};
use std::cell::Cell;
use std::collections::VecDeque;
use std::rc::Rc;

fn scripted(
    script: Vec<Result<&'static str, TransportError>>,
) -> (
    impl FnMut() -> Result<&'static str, TransportError>,
    Rc<Cell<u32>>,
) {
    let calls = Rc::new(Cell::new(0));
    let counter = calls.clone();
    let mut script = VecDeque::from(script);
    let op = move || {
        counter.set(counter.get() + 1);
        script
            .pop_front()
            .unwrap_or(Err(TransportError::Failed("script exhausted".into())))
    };
    (op, calls)
}

#[test]
fn transient_failures_are_retried_until_one_succeeds() {
    let (op, calls) = scripted(vec![
        Err(TransportError::Failed("timeout".into())),
        Err(TransportError::Status(503)),
        Ok("body"),
    ]);
    assert_eq!(Retry::immediate(3).run(op), Ok("body"));
    assert_eq!(calls.get(), 3);
}

#[test]
fn exhausted_retries_report_the_last_error_and_the_count() {
    let (op, calls) = scripted(vec![
        Err(TransportError::Status(429)),
        Err(TransportError::Status(502)),
        Err(TransportError::Failed("connection reset".into())),
        Ok("never reached"),
    ]);
    let gave_up = Retry::immediate(3).run(op).unwrap_err();
    assert_eq!(gave_up.attempts, 3);
    assert_eq!(
        gave_up.error,
        TransportError::Failed("connection reset".into())
    );
    assert_eq!(gave_up.message(), "connection reset (after 3 attempts)");
    assert_eq!(calls.get(), 3);
}

#[test]
fn client_errors_and_missing_pages_are_not_retried() {
    for status in [400, 403, 404] {
        let (op, calls) = scripted(vec![Err(TransportError::Status(status)), Ok("late")]);
        let gave_up = Retry::immediate(3).run(op).unwrap_err();
        assert_eq!(gave_up.error, TransportError::Status(status));
        assert_eq!(gave_up.attempts, 1);
        assert_eq!(gave_up.message(), format!("the site answered {status}"));
        assert_eq!(calls.get(), 1);
    }
}

#[test]
fn a_single_attempt_policy_never_repeats() {
    let (op, calls) = scripted(vec![Err(TransportError::Status(500)), Ok("late")]);
    assert!(Retry::once().run(op).is_err());
    assert_eq!(calls.get(), 1);
    assert_eq!(Retry::immediate(0).attempts, 0);
    let (op, calls) = scripted(vec![Err(TransportError::Status(500))]);
    assert!(Retry::immediate(0).run(op).is_err());
    assert_eq!(calls.get(), 1);
}

#[test]
fn the_pause_doubles_and_stops_doubling() {
    let policy = Retry {
        attempts: 5,
        backoff_ms: 250,
        sleep: agni::transport::NoPause,
    };
    assert_eq!(policy.pause_for(1), 250);
    assert_eq!(policy.pause_for(2), 500);
    assert_eq!(policy.pause_for(3), 1000);
    assert_eq!(policy.pause_for(17), 250 * 65536);
    assert_eq!(policy.pause_for(40), 250 * 65536);
}

#[test]
fn transient_statuses_are_timeouts_limits_and_server_errors() {
    for status in [408, 425, 429, 500, 503, 599] {
        assert!(TransportError::Status(status).transient());
    }
    for status in [200, 301, 400, 404, 600] {
        assert!(!TransportError::Status(status).transient());
    }
    assert!(TransportError::Failed("dns".into()).transient());
}
