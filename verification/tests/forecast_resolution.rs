use hari_core::forecast::{
    due_for_resolution, eval_predicate, overdue_unresolved, resolve, resolve_artifact_text,
    uuidv7_from, Observable, Outcome, Resolution,
};
use hari_core::json::{lookup_field, parse_artifact, parse_index, scalar_string, Json};

fn s(text: &str) -> Json {
    Json::Str(text.to_string())
}

fn obj(entries: Vec<(&str, Json)>) -> Json {
    Json::Object(entries.into_iter().map(|(k, v)| (k.to_string(), v)).collect())
}

fn presence_doc() -> Json {
    obj(vec![(
        "limbs",
        Json::Array(vec![
            obj(vec![("id", s("lane:router")), ("status", s("green"))]),
            obj(vec![("id", s("sensor:quality-snapshot")), ("status", s("green"))]),
        ]),
    )])
}

fn sample_observable() -> Observable {
    Observable {
        source: "ga:state/fleet/presence.json".into(),
        field: "/limbs/id=sensor:quality-snapshot/status".into(),
        predicate: "== green".into(),
    }
}

fn brier(probability: f64, res: &Resolution) -> Option<f64> {
    match res.outcome {
        Outcome::True => Some((probability - 1.0).powi(2)),
        Outcome::False => Some(probability.powi(2)),
        Outcome::Void => None,
    }
}

#[test]
fn lookup_field_supports_key_value_array_selector() {
    let doc = presence_doc();
    let v = lookup_field(&doc, "/limbs/id=sensor:quality-snapshot/status").unwrap();
    assert_eq!(v, &s("green"));
    assert!(lookup_field(&doc, "/limbs/id=nope/status").is_none());
    assert_eq!(lookup_field(&doc, "/limbs/0/id").unwrap(), &s("lane:router"));
}

#[test]
fn predicate_eq_neq_and_malformed() {
    assert_eq!(eval_predicate("== green", &s("green")), Some(true));
    assert_eq!(eval_predicate("== green", &s("red")), Some(false));
    assert_eq!(eval_predicate("!= green", &s("red")), Some(true));
    assert_eq!(eval_predicate("== 3", &Json::Number("3".to_string())), Some(true));
    assert_eq!(eval_predicate("green", &s("green")), None);
    assert_eq!(eval_predicate("== x", &Json::Array(vec![s("x")])), None);
}

#[test]
fn resolve_scores_brier_true_and_false() {
    let observable = sample_observable();
    let res = resolve(&observable, Some(&presence_doc()), "2026-07-03T18:05:00Z");
    assert_eq!(res.outcome, Outcome::True);
    assert!((brier(0.9, &res).unwrap() - 0.01).abs() < 1e-12);
    assert_eq!(res.observed_value.as_deref(), Some("green"));

    let red = obj(vec![(
        "limbs",
        Json::Array(vec![obj(vec![("id", s("sensor:quality-snapshot")), ("status", s("red"))])]),
    )]);
    let res = resolve(&observable, Some(&red), "2026-07-03T18:05:00Z");
    assert_eq!(res.outcome, Outcome::False);
    assert!((brier(0.9, &res).unwrap() - 0.81).abs() < 1e-12);
}

#[test]
fn resolve_void_on_unreadable_artifact_or_missing_field() {
    let observable = sample_observable();
    let res = resolve(&observable, None, "2026-07-03T18:05:00Z");
    assert_eq!(res.outcome, Outcome::Void);
    assert!(brier(0.9, &res).is_none());

    let empty = obj(vec![]);
    let res = resolve(&observable, Some(&empty), "2026-07-03T18:05:00Z");
    assert_eq!(res.outcome, Outcome::Void);
    assert_eq!(res.resolved_at, "2026-07-03T18:05:00Z");
    assert_eq!(res.observed_value, None);
}

#[test]
fn overdue_unresolved_ignores_resolved_and_not_yet_due() {
    let now = "2026-07-05T00:00:00Z";
    // A resolved record past its horizon is already scored.
    let resolved = [("2026-07-03T18:00:00Z".to_string(), false)];
    assert!(overdue_unresolved(&resolved, now).is_empty());
    // Pending, but the horizon is still in the future.
    let not_due = [("2026-07-10T18:00:00Z".to_string(), true)];
    assert!(overdue_unresolved(&not_due, now).is_empty());
}

#[test]
fn uuidv7_shape_version_and_variant() {
    let id = uuidv7_from(1_783_188_000_123, 0x1234_5678_9abc_def0, 0xfedc_ba98_7654_3210);
    assert_eq!(id.len(), 36);
    assert_eq!(id.as_bytes()[14], b'7');
    assert!(matches!(id.as_bytes()[19], b'8' | b'9' | b'a' | b'b'));
    assert_ne!(uuidv7_from(1_783_188_000_123, 0x1234_5678_9abc_def1, 0xfedc_ba98_7654_3210), id);
}

#[test]
fn uuidv7_lays_out_time_version_and_variant() {
    // 48 bits of milliseconds, version 7, 12 random bits, variant 10, 62 random bits.
    let id = uuidv7_from(0x0123_4567_89ab, 0xffff_ffff_ffff_fabc, 0xffff_ffff_ffff_ffff);
    assert_eq!(id, "01234567-89ab-7abc-bfff-ffffffffffff");
    // Only the low 48 bits of the clock are kept.
    assert_eq!(uuidv7_from(0xffff_0000_0000_0001, 0, 0), "00000000-0001-7000-8000-000000000000");
}

#[test]
fn a_selector_needs_an_object_with_a_string_under_the_key() {
    let doc = Json::Array(vec![
        s("id=x"),
        obj(vec![("id", Json::Number("1".to_string()))]),
        obj(vec![("id", s("1")), ("v", Json::Bool(true))]),
    ]);
    assert_eq!(lookup_field(&doc, "id=1/v"), Some(&Json::Bool(true)));
    // The value may itself hold `=`: only the first one splits.
    let eq = Json::Array(vec![obj(vec![("k", s("a=b")), ("v", Json::Null)])]);
    assert_eq!(lookup_field(&eq, "/k=a=b/v"), Some(&Json::Null));
}

#[test]
fn empty_segments_are_skipped_and_an_empty_path_is_the_document() {
    let doc = presence_doc();
    assert_eq!(lookup_field(&doc, ""), Some(&doc));
    assert_eq!(lookup_field(&doc, "//limbs///1//status/"), Some(&s("green")));
    // Keys are not selectors on an object, and indices do not apply to objects.
    assert_eq!(lookup_field(&doc, "/0"), None);
    assert_eq!(lookup_field(&s("x"), "/a"), None);
}

#[test]
fn array_indices_parse_as_unsigned_decimal() {
    let d = |t: &str| parse_index(&t.chars().collect());
    assert_eq!(d("0"), Some(0));
    assert_eq!(d("+7"), Some(7));
    assert_eq!(d("007"), Some(7));
    assert_eq!(d("+"), None);
    assert_eq!(d("-1"), None);
    assert_eq!(d("1a"), None);
    assert_eq!(d(""), None);
    assert_eq!(d("18446744073709551615"), Some(usize::MAX));
    assert_eq!(d("18446744073709551616"), None);
    let doc = Json::Array(vec![s("a"), s("b")]);
    assert_eq!(lookup_field(&doc, "/+1"), Some(&s("b")));
    assert_eq!(lookup_field(&doc, "/2"), None);
}

#[test]
fn scalar_text_of_each_kind() {
    assert_eq!(scalar_string(&s("x")), Some("x".to_string()));
    assert_eq!(scalar_string(&Json::Number("2.5".to_string())), Some("2.5".to_string()));
    assert_eq!(scalar_string(&Json::Bool(false)), Some("false".to_string()));
    assert_eq!(scalar_string(&Json::Null), Some("null".to_string()));
    assert_eq!(scalar_string(&obj(vec![])), None);
}

#[test]
fn predicates_trim_both_sides_and_compare_json_text() {
    assert_eq!(eval_predicate("  ==   green  ", &s("green")), Some(true));
    assert_eq!(eval_predicate("!=true", &Json::Bool(true)), Some(false));
    assert_eq!(eval_predicate("== null", &Json::Null), Some(true));
    assert_eq!(eval_predicate("=", &s("")), None);
    assert_eq!(eval_predicate("==", &s("")), Some(true));
    assert_eq!(eval_predicate("<= 3", &Json::Number("3".to_string())), None);
}

#[test]
fn a_value_without_scalar_text_resolves_void_with_no_observed_value() {
    let observable = Observable {
        source: "a".into(),
        field: "/limbs".into(),
        predicate: "== x".into(),
    };
    let res = resolve(&observable, Some(&presence_doc()), "2026-07-03T18:05:00Z");
    assert_eq!(res.outcome, Outcome::Void);
    assert_eq!(res.observed_value, None);
    // An unscorable predicate on a scalar still records what was observed.
    let bad = Observable { predicate: "green".into(), ..sample_observable() };
    let res = resolve(&bad, Some(&presence_doc()), "t");
    assert_eq!(res.outcome, Outcome::Void);
    assert_eq!(res.observed_value.as_deref(), Some("green"));
}

#[test]
fn uuidv7_ids_sort_by_their_millisecond() {
    let earlier = uuidv7_from(1_783_188_000_123, u64::MAX, u64::MAX);
    let later = uuidv7_from(1_783_188_000_124, 0, 0);
    assert!(earlier < later);
    // Across the 16-bit boundary between the first two groups.
    assert!(uuidv7_from(0x0000_0001_ffff, 7, 7) < uuidv7_from(0x0000_0002_0000, 0, 0));
}

#[test]
fn artifact_text_is_parsed_before_it_is_scored() {
    let text = r#"{"limbs": [{"id": "lane:router", "status": "green"},
                  {"id": "sensor:quality-snapshot", "status": "green"}], "n": 3}"#;
    assert_eq!(
        parse_artifact(Some(text)),
        Some(obj(vec![
            (
                "limbs",
                Json::Array(vec![
                    obj(vec![("id", s("lane:router")), ("status", s("green"))]),
                    obj(vec![("id", s("sensor:quality-snapshot")), ("status", s("green"))]),
                ]),
            ),
            ("n", Json::Number("3".to_string())),
        ]))
    );
    let res = resolve_artifact_text(&sample_observable(), Some(text), "2026-05-01T00:00:00Z");
    assert_eq!(res.outcome, Outcome::True);
    assert_eq!(res.observed_value.as_deref(), Some("green"));
    assert_eq!(res.resolved_at, "2026-05-01T00:00:00Z");
}

#[test]
fn unparseable_or_unreadable_artifact_text_resolves_void() {
    assert_eq!(parse_artifact(Some("{not json")), None);
    assert_eq!(parse_artifact(None), None);
    let res = resolve_artifact_text(&sample_observable(), Some("{not json"), "2026-05-01T00:00:00Z");
    assert_eq!((res.outcome, res.observed_value), (Outcome::Void, None));
    let res = resolve_artifact_text(&sample_observable(), None, "2026-05-01T00:00:00Z");
    assert_eq!(res.outcome, Outcome::Void);
}

#[test]
fn only_pending_forecasts_of_the_source_past_their_horizon_are_due() {
    let entries = vec![
        ("a".to_string(), "2026-01-01T00:00:00Z".to_string(), true),
        ("b".to_string(), "2026-01-01T00:00:00Z".to_string(), true),
        ("a".to_string(), "2027-01-01T00:00:00Z".to_string(), true),
        ("a".to_string(), "2026-01-01T00:00:00Z".to_string(), false),
        ("a".to_string(), "2026-06-01T00:00:00Z".to_string(), true),
    ];
    assert_eq!(due_for_resolution(&entries, "a", "2026-06-01T00:00:00Z"), vec![0, 4]);
    assert_eq!(due_for_resolution(&entries, "b", "2026-06-01T00:00:00Z"), vec![1]);
    assert!(due_for_resolution(&entries, "c", "2026-06-01T00:00:00Z").is_empty());
}
