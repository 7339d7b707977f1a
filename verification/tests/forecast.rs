use hari_core::forecast::{
    day_file_name, format_utc, is_canonical_utc, is_past_horizon, overdue_unresolved, rfc3339_now, Links,
    FORECAST_SCHEMA,
};
use hari_core::operator_model::parse_utc_to_epoch;

#[test]
fn rfc3339_now_shape() {
    let ts = rfc3339_now();
    assert_eq!(ts.len(), 20);
    assert!(ts.ends_with('Z'));
    assert_eq!(&ts[4..5], "-");
    assert_eq!(&ts[10..11], "T");
}

#[test]
fn canonical_utc_rejects_fractional_seconds_and_offsets() {
    assert!(is_canonical_utc("2026-07-03T18:00:00Z"));
    assert!(is_canonical_utc(&rfc3339_now()));
    assert!(!is_canonical_utc("2026-07-03T18:00:00.500Z"));
    assert!(!is_canonical_utc("2026-07-03T18:00:00+00:00"));
    assert!(!is_canonical_utc("2026-07-03 18:00:00Z"));
    assert!(!is_canonical_utc("2026-13-03T18:00:00Z"));
    assert!(!is_canonical_utc("2026-07-03T24:00:00Z"));
    assert!(!is_canonical_utc(""));
}

#[test]
fn format_utc_known_instants() {
    assert_eq!(format_utc(0), "1970-01-01T00:00:00Z");
    assert_eq!(format_utc(86_399), "1970-01-01T23:59:59Z");
    assert_eq!(format_utc(951_782_400), "2000-02-29T00:00:00Z");
    assert_eq!(format_utc(1_783_188_000), "2026-07-04T18:00:00Z");
    assert_eq!(format_utc(253_402_300_799), "9999-12-31T23:59:59Z");
    assert_eq!(format_utc(253_402_300_800), "10000-01-01T00:00:00Z");
}

#[test]
fn parse_reads_back_what_format_wrote() {
    for secs in [0u64, 59, 3_600, 951_782_400, 1_783_188_000, 4_102_444_799, 253_402_300_799] {
        assert_eq!(parse_utc_to_epoch(&format_utc(secs)), Some(secs as i64));
    }
}

#[test]
fn parse_before_the_epoch_is_negative() {
    assert_eq!(parse_utc_to_epoch("1969-12-31T23:59:59Z"), Some(-1));
    assert_eq!(parse_utc_to_epoch("0000-03-01T00:00:00Z"), Some(-62_162_035_200));
}

#[test]
fn horizon_comparison_is_lexicographic_utc() {
    assert!(is_past_horizon("2026-07-03T18:00:00Z", "2026-07-03T18:00:00Z"));
    assert!(is_past_horizon("2026-07-03T18:00:00Z", "2026-07-03T18:00:01Z"));
    assert!(!is_past_horizon("2026-07-03T18:00:01Z", "2026-07-03T18:00:00Z"));
    assert!(!is_past_horizon("2026-12-31T00:00:00Z", "2026-07-03T18:00:00Z"));
}

#[test]
fn overdue_unresolved_flags_pending_past_horizon() {
    let records = vec![
        ("2026-07-01T00:00:00Z".to_string(), true),
        ("2026-07-01T00:00:00Z".to_string(), false),
        ("2026-07-09T00:00:00Z".to_string(), true),
        ("2026-07-04T18:00:00Z".to_string(), true),
    ];
    assert_eq!(overdue_unresolved(&records, "2026-07-04T18:00:00Z"), vec![0, 3]);
    assert!(overdue_unresolved(&records, "2026-06-01T00:00:00Z").is_empty());
}

#[test]
fn day_files_are_named_after_the_date() {
    assert_eq!(
        day_file_name("2026-07-04T18:00:00Z"),
        Some("2026-07-04.jsonl".to_string())
    );
    assert_eq!(day_file_name("2026-07-04T18:00:00.5Z"), None);
    assert_eq!(FORECAST_SCHEMA, "hari-forecast-record-v0.1.0");
    assert_eq!(Links::default().supersedes, None);
}

#[test]
fn append_rejects_non_canonical_horizon() {
    // A fractional-seconds horizon would sort before the whole second it
    // names; the write boundary refuses it.
    assert!(!is_canonical_utc("2026-07-03T18:00:00.500Z"));
    assert!(day_file_name("2026-07-03T18:00:00.500Z").is_none());
}
