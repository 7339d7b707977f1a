use hari_core::keymap::KeyMap;
use hari_core::research::{
    Action, HexValue, ResearchEvent, ResearchEventOutcome, ResearchEventPayload,
};
use hari_core::source_reliability::{
    entrenchment, outcomes_from_report, report_totals, SourceOutcomeRecord, SourceType,
    MIN_ACCEPTED_FOR_TRUST, PRIOR_MEAN_DENOMINATOR, PRIOR_MEAN_NUMERATOR, PRIOR_WEIGHT,
    SOURCE_OUTCOME_SCHEMA, SOURCE_RELIABILITY_REPORT_SCHEMA, TRUST_MARGIN_DENOMINATOR,
    TRUST_MARGIN_NUMERATOR,
};

fn outcome(
    cycle: u64,
    source: &str,
    proposition: &str,
    value: HexValue,
    actions: Vec<Action>,
) -> ResearchEventOutcome {
    ResearchEventOutcome {
        event: ResearchEvent {
            cycle,
            source: source.to_string(),
            payload: ResearchEventPayload::BeliefUpdate {
                proposition: proposition.to_string(),
                value,
            },
        },
        actions,
        state_summary: String::new(),
        revisions: Vec::new(),
    }
}

fn retraction(cycle: u64, source: &str, proposition: &str) -> ResearchEventOutcome {
    ResearchEventOutcome {
        event: ResearchEvent {
            cycle,
            source: source.to_string(),
            payload: ResearchEventPayload::Retraction {
                proposition: proposition.to_string(),
                reason: "test".to_string(),
                retracts: None,
            },
        },
        actions: Vec::new(),
        state_summary: String::new(),
        revisions: Vec::new(),
    }
}

fn beliefs(pairs: &[(&str, HexValue)]) -> KeyMap<HexValue> {
    let mut m = KeyMap::new();
    for (k, v) in pairs {
        m.insert(k.to_string(), *v);
    }
    m
}

fn row(session: &str, source: &str, accepted: u32, false_acceptances: u32) -> SourceOutcomeRecord {
    SourceOutcomeRecord {
        schema: SOURCE_OUTCOME_SCHEMA.to_string(),
        session_id: session.to_string(),
        source: source.to_string(),
        source_type: SourceType::Unknown,
        recorded_at: "2026-07-20T12:00:00Z".to_string(),
        claims: accepted,
        accepted,
        false_acceptances,
        escalations: 0,
        false_escalations: 0,
    }
}

#[test]
fn accept_later_retracted_is_a_false_acceptance_for_that_source() {
    let outcomes = vec![
        outcome(
            1,
            "good-source",
            "p",
            HexValue::Probable,
            vec![Action::Accept {
                proposition: "p".into(),
                value: HexValue::Probable,
            }],
        ),
        outcome(
            2,
            "bad-source",
            "q",
            HexValue::Probable,
            vec![Action::Accept {
                proposition: "q".into(),
                value: HexValue::Probable,
            }],
        ),
        retraction(3, "runner", "q"),
    ];
    let final_beliefs = beliefs(&[("p", HexValue::Probable), ("q", HexValue::Unknown)]);

    let rows = outcomes_from_report("sess-1", "2026-07-20T12:00:00Z", &outcomes, &final_beliefs);
    let by = |s: &str| rows.iter().find(|r| r.source == s);

    assert_eq!(by("good-source").unwrap().accepted, 1);
    assert_eq!(by("good-source").unwrap().false_acceptances, 0);
    assert_eq!(by("bad-source").unwrap().accepted, 1);
    assert_eq!(by("bad-source").unwrap().false_acceptances, 1);
    assert!(by("runner").is_none());
    // Rows come sorted by source id.
    let names: Vec<&str> = rows.iter().map(|r| r.source.as_str()).collect();
    assert_eq!(names, vec!["bad-source", "good-source"]);
    assert!(rows.iter().all(|r| r.session_id == "sess-1"
        && r.recorded_at == "2026-07-20T12:00:00Z"
        && r.schema == SOURCE_OUTCOME_SCHEMA
        && r.source_type == SourceType::Unknown));
}

#[test]
fn escalation_ending_probable_is_a_false_escalation() {
    let outcomes = vec![outcome(
        1,
        "nervous-source",
        "p",
        HexValue::Probable,
        vec![Action::Escalate {
            reason: "looks contradictory".into(),
        }],
    )];
    let final_beliefs = beliefs(&[("p", HexValue::True)]);

    let rows = outcomes_from_report("sess-1", "2026-07-20T12:00:00Z", &outcomes, &final_beliefs);
    assert_eq!(rows.len(), 1);
    assert_eq!(rows[0].escalations, 1);
    assert_eq!(rows[0].false_escalations, 1);
    assert_eq!(rows[0].claims, 1);
}

#[test]
fn an_escalation_on_a_propositionless_event_is_not_attributed() {
    let outcomes = vec![ResearchEventOutcome {
        event: ResearchEvent {
            cycle: 1,
            source: "planner".to_string(),
            payload: ResearchEventPayload::GoalUpdate {
                key: "g".to_string(),
                description: "d".to_string(),
                status: None,
            },
        },
        actions: vec![Action::Escalate {
            reason: "unclear".to_string(),
        }],
        state_summary: String::new(),
        revisions: Vec::new(),
    }];
    let rows = outcomes_from_report("s", "2026-07-20T12:00:00Z", &outcomes, &beliefs(&[]));
    assert!(rows.is_empty());
}

#[test]
fn report_pooled_equals_sum_per_source() {
    let rows = vec![
        row("s1", "good-source", 2, 0),
        row("s2", "good-source", 2, 0),
        row("s1", "bad-source", 4, 3),
    ];
    let rep = report_totals(&rows);
    assert_eq!(rep.rows, 3);
    assert_eq!(rep.pooled.accepted, 8);
    assert_eq!(rep.pooled.false_acceptances, 3);
    assert_eq!(rep.pooled.sessions, 3);
    let good = rep.by_source.get("good-source").unwrap();
    assert_eq!((good.sessions, good.accepted, good.false_acceptances), (2, 4, 0));
    let bad = rep.by_source.get("bad-source").unwrap();
    assert_eq!((bad.sessions, bad.accepted, bad.false_acceptances), (1, 4, 3));
}

#[test]
fn empty_ledger_totals_are_zero() {
    let rep = report_totals(&[]);
    assert_eq!(rep.rows, 0);
    assert_eq!(rep.pooled.accepted, 0);
    assert!(rep.by_source.is_empty());
}

#[test]
fn pins_prior_and_trust_thresholds() {
    let prior_weight = PRIOR_WEIGHT as f64;
    let prior_mean = PRIOR_MEAN_NUMERATOR as f64 / PRIOR_MEAN_DENOMINATOR as f64;
    assert_eq!((prior_weight, prior_mean), (2.0, 0.5));
    assert_eq!(MIN_ACCEPTED_FOR_TRUST, 3);
    let trust_margin = TRUST_MARGIN_NUMERATOR as f64 / TRUST_MARGIN_DENOMINATOR as f64;
    assert!((trust_margin - 0.05).abs() < 1e-12);
    assert_eq!(SOURCE_RELIABILITY_REPORT_SCHEMA, "hari-source-reliability-report-v0.1.0");
}

fn smoothed(e: &hari_core::source_reliability::SourceEntrenchment) -> f64 {
    e.smoothed_numerator as f64 / e.smoothed_denominator as f64
}

#[test]
fn report_pooled_equals_sum_and_entrenchment_ranks_by_precision() {
    let rows = vec![
        row("s1", "good-source", 2, 0),
        row("s2", "good-source", 2, 0),
        row("s1", "bad-source", 4, 3),
    ];
    let rep = report_totals(&rows);
    assert_eq!(rep.pooled.accepted, 8);
    assert_eq!(rep.pooled.false_acceptances, 3);
    let rungs = entrenchment(&rep);
    assert_eq!(rungs.len(), 2);
    assert_eq!(rungs[0].source, "good-source");
    assert!(rungs[0].beats_pooled_baseline);
    // good: (4 + 1) / (4 + 2); pooled (5 + 1) / (8 + 2).
    assert!((smoothed(&rungs[0]) - 5.0 / 6.0).abs() < 1e-12);
    let bad = rungs.iter().find(|e| e.source == "bad-source").unwrap();
    assert!(!bad.beats_pooled_baseline);
    assert!((smoothed(bad) - 2.0 / 6.0).abs() < 1e-12);
}

#[test]
fn ties_rank_by_source_id_and_small_samples_never_beat_the_pool() {
    let rows = vec![
        row("s1", "b", 2, 0),
        row("s1", "a", 2, 0),
        row("s1", "c", 9, 9),
    ];
    let rungs = entrenchment(&report_totals(&rows));
    let names: Vec<&str> = rungs.iter().map(|e| e.source.as_str()).collect();
    assert_eq!(names, vec!["a", "b", "c"]);
    // Two acceptances are under the minimum, however precise.
    assert!(!rungs[0].beats_pooled_baseline);
}

#[test]
fn an_empty_ledger_has_an_empty_entrenchment() {
    assert!(entrenchment(&report_totals(&[])).is_empty());
}

#[test]
fn source_reliability_empty_ledger_reports_prior_not_nan() {
    let rep = report_totals(&[]);
    assert_eq!(rep.rows, 0);
    assert_eq!(rep.pooled.accepted, 0);
    // No accepted claims: the precision is undefined rather than NaN, and the
    // smoothed precision is the prior itself.
    let (correct, accepted) = (rep.pooled.accepted - rep.pooled.false_acceptances, rep.pooled.accepted);
    assert_eq!(accepted, 0);
    let prior = PRIOR_MEAN_NUMERATOR as f64 / PRIOR_MEAN_DENOMINATOR as f64;
    let smoothed = (correct as f64 + PRIOR_WEIGHT as f64 * prior) / (accepted as f64 + PRIOR_WEIGHT as f64);
    assert!((smoothed - prior).abs() < 1e-12);
    assert!(rep.by_source.keys().is_empty());
    assert!(entrenchment(&rep).is_empty());
}

#[test]
fn source_reliability_append_rejects_non_canonical_timestamp() {
    let mut r = row("s1", "src", 1, 0);
    r.recorded_at = "2026-07-20T12:00:00.500Z".to_string();
    assert!(hari_core::forecast::day_file_name(&r.recorded_at).is_none());
}

#[test]
fn a_source_exactly_at_the_trust_margin_beats_the_pool() {
    // Pool: 10 of 18 acceptances correct, smoothed 11/20. Source "a": 2 of 3,
    // smoothed 3/5, which is the pool's precision plus the margin exactly.
    let rows = vec![row("s1", "a", 3, 1), row("s1", "b", 15, 7)];
    let rungs = entrenchment(&report_totals(&rows));
    let a = rungs.iter().find(|e| e.source == "a").unwrap();
    assert_eq!(a.smoothed_numerator * 5, a.smoothed_denominator * 3);
    assert!(a.beats_pooled_baseline);
}
