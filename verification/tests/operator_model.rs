use hari_core::operator_model::{
    is_stale, ledger_file_name, parse_utc_to_epoch, should_notify, state, status_report,
    OperatorEvent, SignalState,
};

fn surfaced(id: &str, at: &str, ttl: Option<u64>) -> OperatorEvent {
    OperatorEvent::Surfaced {
        signal_id: id.to_string(),
        kind: "presence-snapshot".to_string(),
        surfaced_at: at.to_string(),
        ttl_secs: ttl,
    }
}

fn acked(id: &str, at: &str) -> OperatorEvent {
    OperatorEvent::Acknowledged {
        signal_id: id.to_string(),
        acknowledged_at: at.to_string(),
    }
}

#[test]
fn ack_after_surface_flips_should_notify_to_false() {
    let before = state(&[surfaced("s", "2026-07-04T18:00:00Z", None)]);
    assert!(should_notify(before.get("s").unwrap(), "2026-07-04T18:01:00Z"));

    let after = state(&[
        surfaced("s", "2026-07-04T18:00:00Z", None),
        acked("s", "2026-07-04T18:02:00Z"),
    ]);
    assert!(!should_notify(after.get("s").unwrap(), "2026-07-04T18:03:00Z"));
    assert_eq!(
        after.get("s").unwrap().acknowledged_at.as_deref(),
        Some("2026-07-04T18:02:00Z")
    );
}

#[test]
fn re_surface_updates_surfaced_at_and_clears_ack() {
    let st = state(&[
        surfaced("s", "2026-07-04T18:00:00Z", Some(60)),
        acked("s", "2026-07-04T18:00:30Z"),
        surfaced("s", "2026-07-04T19:00:00Z", Some(120)),
    ]);
    let s = st.get("s").unwrap();
    assert_eq!(s.surfaced_at, "2026-07-04T19:00:00Z");
    assert_eq!(s.ttl_secs, Some(120));
    assert!(s.acknowledged_at.is_none());
    assert!(should_notify(s, "2026-07-04T19:00:01Z"));
}

#[test]
fn is_stale_true_only_past_ttl_and_unacknowledged() {
    let st = state(&[surfaced("s", "2026-07-04T18:00:00Z", Some(3600))]);
    let s = st.get("s").unwrap();
    assert!(!is_stale(s, "2026-07-04T18:59:59Z"));
    assert!(!is_stale(s, "2026-07-04T19:00:00Z"));
    assert!(is_stale(s, "2026-07-04T19:00:01Z"));

    let no_ttl = state(&[surfaced("t", "2026-07-04T18:00:00Z", None)]);
    assert!(!is_stale(no_ttl.get("t").unwrap(), "2027-01-01T00:00:00Z"));

    let ack = state(&[
        surfaced("u", "2026-07-04T18:00:00Z", Some(1)),
        acked("u", "2026-07-04T18:00:00Z"),
    ]);
    assert!(!is_stale(ack.get("u").unwrap(), "2026-07-04T23:00:00Z"));
}

#[test]
fn unknown_or_unacknowledged_signal_notifies() {
    let st = state(&[surfaced("s", "2026-07-04T18:00:00Z", None)]);
    assert!(should_notify(st.get("s").unwrap(), "2026-07-04T18:00:00Z"));
}

#[test]
fn orphan_ack_is_dropped_not_fatal() {
    let st = state(&[acked("ghost", "2026-07-04T18:00:00Z")]);
    assert!(st.is_empty());
}

#[test]
fn should_notify_false_iff_acknowledged() {
    let unacked = SignalState {
        kind: "k".into(),
        surfaced_at: "2026-07-04T18:00:00Z".into(),
        acknowledged_at: None,
        ttl_secs: None,
    };
    let acked_state = SignalState {
        acknowledged_at: Some("2026-07-04T18:01:00Z".into()),
        ..unacked.clone()
    };
    let now = "2026-07-04T18:02:00Z";
    assert!(should_notify(&unacked, now));
    assert!(!should_notify(&acked_state, now));
    assert!(should_notify(&unacked, "2030-01-01T00:00:00Z"));
    assert!(!should_notify(&acked_state, "2030-01-01T00:00:00Z"));
}

#[test]
fn operator_model_append_rejects_non_canonical_timestamp() {
    let bad = surfaced("s", "2026-07-04T18:00:00.500Z", None);
    assert!(ledger_file_name(&bad).is_none());
}

#[test]
fn parse_utc_to_epoch_anchors_and_rejects_non_canonical() {
    assert_eq!(parse_utc_to_epoch("1970-01-01T00:00:00Z"), Some(0));
    assert_eq!(parse_utc_to_epoch("1970-01-02T00:00:00Z"), Some(86_400));
    assert_eq!(parse_utc_to_epoch("1970-01-01T01:00:00Z"), Some(3600));
    assert!(parse_utc_to_epoch("2026-07-04T18:00:00.500Z").is_none());
    assert!(parse_utc_to_epoch("2026-07-04 18:00:00Z").is_none());
    assert!(parse_utc_to_epoch("not-a-timestamp").is_none());
}

#[test]
fn is_stale_degrades_on_malformed_timestamps() {
    let malformed = SignalState {
        kind: "k".into(),
        surfaced_at: "garbage".into(),
        acknowledged_at: None,
        ttl_secs: Some(1),
    };
    assert!(!is_stale(&malformed, "2026-07-04T18:00:00Z"));
    let ok = SignalState {
        surfaced_at: "2026-07-04T18:00:00Z".into(),
        ..malformed
    };
    assert!(!is_stale(&ok, "garbage"));
}

#[test]
fn status_report_carries_state_and_both_decisions() {
    let events = vec![
        surfaced("fresh", "2026-07-04T18:00:00Z", Some(3600)),
        surfaced("done", "2026-07-04T18:00:00Z", Some(3600)),
        acked("done", "2026-07-04T18:05:00Z"),
        surfaced("stale", "2026-07-04T10:00:00Z", Some(60)),
    ];
    let report = status_report(&events, "2026-07-04T18:30:00Z");

    let fresh = report.get("fresh").unwrap();
    let done = report.get("done").unwrap();
    let stale = report.get("stale").unwrap();
    assert!(fresh.should_notify && !fresh.is_stale);
    assert!(!done.should_notify && !done.is_stale);
    assert!(stale.should_notify && stale.is_stale);
    assert_eq!(stale.state.kind, "presence-snapshot");
}

#[test]
fn status_report_walks_signals_in_id_order() {
    let events = vec![
        surfaced("zeta", "2026-07-04T18:00:00Z", None),
        surfaced("alpha", "2026-07-04T18:00:00Z", None),
        acked("mid", "2026-07-04T18:00:00Z"),
        surfaced("mid", "2026-07-04T18:01:00Z", None),
    ];
    let report = status_report(&events, "2026-07-04T18:30:00Z");
    assert_eq!(report.len(), 3);
    let keys: Vec<&str> = (0..report.len()).map(|i| report.key_at(i).as_str()).collect();
    assert_eq!(keys, vec!["alpha", "mid", "zeta"]);
    // The ack preceded the surfacing, so it was dropped and "mid" notifies.
    assert!(report.get("mid").unwrap().should_notify);
}

#[test]
fn huge_ttl_wraps_like_a_signed_duration() {
    // A TTL beyond i64::MAX reads as a negative duration, so the deadline
    // lies before the surfacing and the signal is stale at once.
    let st = state(&[surfaced("s", "2026-07-04T18:00:00Z", Some(u64::MAX))]);
    assert!(is_stale(st.get("s").unwrap(), "2026-07-04T18:00:00Z"));
    // A TTL of exactly i64::MAX saturates and never expires.
    let st = state(&[surfaced("s", "2026-07-04T18:00:00Z", Some(i64::MAX as u64))]);
    assert!(!is_stale(st.get("s").unwrap(), "9999-12-31T23:59:59Z"));
}

#[test]
fn ledger_file_is_named_after_the_event_date() {
    let ev = acked("s", "2026-07-04T18:05:00Z");
    assert_eq!(ledger_file_name(&ev).as_deref(), Some("2026-07-04.jsonl"));
    assert_eq!(ev.signal_id(), "s");
    assert_eq!(ev.timestamp(), "2026-07-04T18:05:00Z");
}
