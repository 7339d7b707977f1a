use hari_core::protocol::{ProtocolErrorCode, SessionAction, SessionEvent, SessionGate};

fn reject(code: ProtocolErrorCode, fatal: bool) -> SessionAction {
    SessionAction::Reject { code, fatal }
}

fn opened() -> SessionGate {
    let mut g = SessionGate::new();
    assert_eq!(g.step(SessionEvent::OpenRequested), SessionAction::StartSession);
    assert_eq!(g.step(SessionEvent::Opened), SessionAction::ReportOpened);
    g
}

#[test]
fn requests_before_open_have_no_session() {
    let mut g = SessionGate::new();
    for e in [SessionEvent::EventRequested, SessionEvent::MetricsRequested, SessionEvent::CloseRequested] {
        assert_eq!(g.step(e), reject(ProtocolErrorCode::NoSession, false));
    }
    assert_eq!(g, SessionGate::new());
}

#[test]
fn a_second_open_is_refused() {
    let mut g = opened();
    assert_eq!(g.step(SessionEvent::OpenRequested), reject(ProtocolErrorCode::AlreadyOpen, false));
    assert!(g.open);
}

#[test]
fn a_failed_open_leaves_no_session() {
    let mut g = SessionGate::new();
    assert_eq!(g.step(SessionEvent::OpenRequested), SessionAction::StartSession);
    assert_eq!(g.step(SessionEvent::OpenFailed), reject(ProtocolErrorCode::TraceIo, true));
    assert!(!g.open);
}

#[test]
fn events_are_recorded_then_applied_in_cycle_order() {
    let mut g = opened();
    assert_eq!(g.step(SessionEvent::EventRequested), SessionAction::RecordRequest);
    assert_eq!(g.step(SessionEvent::EventRecorded { cycle: 3 }), SessionAction::ApplyEvent { cycle: 3 });
    // Equal cycles are fine: the order is non-decreasing.
    assert_eq!(g.step(SessionEvent::EventRecorded { cycle: 3 }), SessionAction::ApplyEvent { cycle: 3 });
    assert_eq!(
        g.step(SessionEvent::EventRecorded { cycle: 2 }),
        reject(ProtocolErrorCode::OutOfOrderCycle, false)
    );
    assert_eq!(g.last_cycle, Some(3));
    assert_eq!(g.step(SessionEvent::EventRecorded { cycle: 9 }), SessionAction::ApplyEvent { cycle: 9 });
}

#[test]
fn a_failed_trace_write_is_fatal_and_changes_nothing() {
    let mut g = opened();
    g.step(SessionEvent::EventRecorded { cycle: 1 });
    let before = g;
    assert_eq!(g.step(SessionEvent::RecordFailed), reject(ProtocolErrorCode::TraceIo, true));
    assert_eq!(g, before);
}

#[test]
fn close_drops_the_session_and_a_new_one_can_start() {
    let mut g = opened();
    g.step(SessionEvent::EventRecorded { cycle: 5 });
    assert_eq!(g.step(SessionEvent::MetricsRecorded), SessionAction::ReportMetrics);
    assert_eq!(g.step(SessionEvent::CloseRequested), SessionAction::RecordRequest);
    assert_eq!(g.step(SessionEvent::CloseRecorded), SessionAction::ReportClosed);
    assert_eq!(g.step(SessionEvent::EventRequested), reject(ProtocolErrorCode::NoSession, false));
    let mut g2 = g;
    assert_eq!(g2.step(SessionEvent::OpenRequested), SessionAction::StartSession);
    g2.step(SessionEvent::Opened);
    // The new session's cycles start afresh.
    assert_eq!(g2.step(SessionEvent::EventRecorded { cycle: 1 }), SessionAction::ApplyEvent { cycle: 1 });
}

#[test]
fn end_of_input_closes_a_live_session_uncleanly() {
    let mut g = opened();
    assert_eq!(g.step(SessionEvent::InputEnded), SessionAction::ReportUncleanClose);
    assert!(!g.open);
    assert_eq!(g.step(SessionEvent::InputEnded), SessionAction::Nothing);
}

#[test]
fn unparseable_lines_are_answered_with_invalid_json() {
    let mut g = opened();
    assert_eq!(g.step(SessionEvent::Unparseable), reject(ProtocolErrorCode::InvalidJson, false));
    assert!(g.open);
}

#[test]
fn error_codes_read_as_on_the_wire() {
    assert_eq!(ProtocolErrorCode::AlreadyOpen.code(), "already_open");
    assert_eq!(ProtocolErrorCode::NoSession.code(), "no_session");
    assert_eq!(ProtocolErrorCode::OutOfOrderCycle.code(), "out_of_order_cycle");
    assert_eq!(ProtocolErrorCode::TraceIo.code(), "trace_io");
    assert_eq!(ProtocolErrorCode::InvalidJson.code(), "invalid_json");
}
