use doccraft::api::{
    adjust_slots, after_status, allowed_origin, authenticate, event_cursor, local_only, public_api_error,
    request_cancel, session_cookie, shown_status, stream_terminal, valid_host, AfterStatus, ApiError, Batch,
    Cancellation, Cause, EventStream, SlotChange,
};
use doccraft::db::{stored_bytes, temporarily_unavailable, transaction_conflict, DbError};

fn status(cause: Cause) -> u16 {
    public_api_error(&ApiError { cause }).0
}

#[test]
fn frontend_origin_matches_configured_ports_only() {
    assert!(allowed_origin("http://127.0.0.1:6001", 8765, 6001));
    assert!(allowed_origin("http://localhost:6001", 8765, 6001));
    assert!(allowed_origin("http://127.0.0.1:8765", 8765, 6001));
    assert!(allowed_origin("http://localhost:16001", 18765, 16001));
    for origin in [
        "http://localhost:5173",
        "http://localhost:6002",
        "http://evil.test:6001",
        "null",
        "http://evil@localhost:6001",
        "http://localhost:6001/extra",
    ] {
        assert!(!allowed_origin(origin, 8765, 6001), "{origin}");
    }
}

#[test]
fn api_errors_have_safe_and_meaningful_status_codes() {
    assert_eq!(status(Cause::Database(DbError::RowNotFound)), 404);
    assert_eq!(status(Cause::Database(DbError::Connection)), 503);
    assert_eq!(status(Cause::Database(DbError::Other)), 500);
    assert_eq!(status(Cause::Text("Invalid task configuration".into())), 400);
}

#[test]
fn reconnect_cursor_uses_last_received_event_before_initial_query() {
    assert_eq!(event_cursor(Some(10), None), 10);
    assert_eq!(event_cursor(Some(10), Some("25")), 25);
    assert_eq!(event_cursor(Some(10), Some("invalid")), 10);
    assert_eq!(event_cursor(None, Some("invalid")), 0);
}

#[test]
fn event_stream_uses_current_run_status_not_historical_terminal_events() {
    for active in ["queued", "running", "cancelling", "interrupted"] {
        assert!(!stream_terminal(active));
    }
    for terminal in [
        "completed",
        "completed_with_warnings",
        "failed",
        "cancelled",
    ] {
        assert!(stream_terminal(terminal));
    }
}

#[test]
fn error_numbers_decide_recovery_and_status() {
    for (number, retry, code) in [
        (1213, true, 503),
        (1205, true, 503),
        (1040, false, 503),
        (1062, false, 500),
    ] {
        let error = DbError::Server(number);
        assert_eq!(transaction_conflict(&error), retry);
        assert_eq!(temporarily_unavailable(&error), code == 503);
        assert_eq!(status(Cause::Database(error)), code);
    }
    assert_eq!(stored_bytes(-1), 0);
    assert_eq!(stored_bytes(7), 7);
}

#[test]
fn reported_errors_hide_addresses_and_keep_conflicts() {
    let text = |t: &str| public_api_error(&ApiError { cause: Cause::Text(t.into()) });
    assert_eq!(
        text("cannot reach https://secret/v1"),
        (400, "Network operation failed; check connection settings".into())
    );
    assert_eq!(text("CONFLICT: stale"), (409, "CONFLICT: stale".into()));
    assert_eq!(status(Cause::Upstream(true)), 504);
    assert_eq!(status(Cause::Upstream(false)), 502);
    assert_eq!(status(Cause::Elapsed), 504);
    assert_eq!(
        public_api_error(&ApiError { cause: Cause::Internal }),
        (500, "Internal server error".into())
    );
}

#[test]
fn only_this_machine_may_ask() {
    for host in ["localhost", "127.0.0.1:8765", "http://localhost:1", "http://https://localhost"] {
        assert!(valid_host(host), "{host}");
    }
    for host in ["evil.test", "localhost/x", "u@localhost", ""] {
        assert!(!valid_host(host), "{host}");
    }
    assert!(local_only(Some("localhost:8765"), None, None, 8765, 6001));
    assert!(!local_only(None, None, None, 8765, 6001));
    assert!(!local_only(Some("localhost"), Some("http://evil.test"), None, 8765, 6001));
    assert!(local_only(Some("localhost"), Some("http://localhost:6001"), Some("same-site"), 8765, 6001));
    assert!(!local_only(Some("localhost"), None, Some("cross-site"), 8765, 6001));
}

#[test]
fn a_session_is_known_by_its_cookie() {
    assert_eq!(
        session_cookie("abc"),
        "doccraft_session=abc; HttpOnly; SameSite=Strict; Path=/"
    );
    assert!(authenticate("a=b; doccraft_session=abc ;c=d", "abc"));
    assert!(authenticate("doccraft_session=abc", "abc"));
    assert!(!authenticate("doccraft_session=abcd", "abc"));
    assert!(!authenticate("", "abc"));
}

#[test]
fn a_finished_run_is_not_cancelled_and_none_is_told_twice() {
    assert_eq!(request_cancel(false, false, false), Cancellation::Refused);
    assert_eq!(request_cancel(true, true, false), Cancellation::Refused);
    assert_eq!(request_cancel(true, false, true), Cancellation::Repeated);
    assert_eq!(request_cancel(true, false, false), Cancellation::Signal);
    assert_eq!(shown_status("running", true), "cancelling");
    assert_eq!(shown_status("completed", true), "completed");
    assert_eq!(shown_status("queued", false), "queued");
}

#[test]
fn slots_and_batches_follow_their_limits() {
    assert_eq!(adjust_slots(2, 5), SlotChange::Add(3));
    assert_eq!(adjust_slots(5, 2), SlotChange::Forget(3));
    assert_eq!(adjust_slots(2, 2), SlotChange::Forget(0));
    let batch = |n: usize| Batch { ids: vec![String::new(); n] };
    assert!(batch(64).accepted());
    assert!(!batch(65).accepted());
}

#[test]
fn a_stream_looks_at_the_status_when_events_run_dry() {
    let mut stream = EventStream { idle: 0 };
    let full = stream.polled(Some(200));
    assert!(!full.look && !full.wait);
    let first = stream.polled(Some(3));
    assert!(first.look && first.wait);
    let mut slow = EventStream { idle: 18 };
    assert!(!slow.polled(None).look);
    assert!(!slow.polled(Some(0)).look);
    assert!(slow.polled(Some(0)).look);
    assert_eq!(slow.idle, 0);
    assert_eq!(after_status(Some("running")), AfterStatus::GoOn);
    assert_eq!(after_status(Some("failed")), AfterStatus::Drain);
    assert_eq!(after_status(None), AfterStatus::NotFound);
}
