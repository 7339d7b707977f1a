use hari_core::lineage::{redacted_source_count, LineageRedaction, LINEAGE_VERSION};
use hari_core::session::{default_dimension, session_id_from_nanos, synth_session_id};

#[test]
fn a_session_opens_at_dimension_four() {
    assert_eq!(default_dimension(), 4);
}

#[test]
fn session_ids_are_hari_and_the_clock_reading() {
    assert_eq!(session_id_from_nanos(0), "hari-0");
    assert_eq!(
        session_id_from_nanos(1_783_188_000_123_456_789),
        "hari-1783188000123456789"
    );
    let id = synth_session_id();
    assert!(id.starts_with("hari-"));
    assert!(id[5..].chars().all(|c| c.is_ascii_digit()));
}

#[test]
fn redaction_counts_withheld_sources() {
    assert_eq!(LINEAGE_VERSION, "hari-evidence-lineage-v0.1.0");
    assert_eq!(redacted_source_count(&None), 0);
    let r = LineageRedaction {
        policy: "private-sources".to_string(),
        redacted_node_ids: vec!["src:1".to_string(), "src:2".to_string()],
        note: None,
    };
    assert_eq!(redacted_source_count(&Some(r)), 2);
}
