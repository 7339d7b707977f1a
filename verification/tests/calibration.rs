use hari_core::calibration::{calibration_counts, in_scope, pooled_counts, CalibrationCounts, ForecastState};
use hari_core::keymap::KeyMap;
use hari_core::research::{
    Action, HexValue, ResearchEvent, ResearchEventOutcome, ResearchEventPayload,
};

fn rec(belief: &str, st: ForecastState) -> (String, ForecastState) {
    (belief.to_string(), st)
}

/// What the caller does with the counts: the pooled Brier mean over every
/// scored forecast, from the scored records' own scores.
fn pooled_mean(scored: &[(&str, f64)], counts: &CalibrationCounts) -> Option<f64> {
    if counts.scored == 0 {
        None
    } else {
        Some(scored.iter().map(|(_, b)| b).sum::<f64>() / counts.scored as f64)
    }
}

/// The replay of one `Probable` claim about `benchmark-x-is-reliable`.
fn one_claim_replay() -> (Vec<ResearchEventOutcome>, KeyMap<HexValue>) {
    let outcomes = vec![ResearchEventOutcome {
        event: ResearchEvent {
            cycle: 1,
            source: "ix-agent-a".to_string(),
            payload: ResearchEventPayload::BeliefUpdate {
                proposition: "benchmark-x-is-reliable".to_string(),
                value: HexValue::Probable,
            },
        },
        actions: vec![Action::Accept {
            proposition: "benchmark-x-is-reliable".to_string(),
            value: HexValue::Probable,
        }],
        state_summary: String::new(),
        revisions: Vec::new(),
    }];
    let mut finals = KeyMap::new();
    finals.insert("benchmark-x-is-reliable".to_string(), HexValue::Probable);
    (outcomes, finals)
}

#[test]
fn pooled_brier_weights_by_scored_count_not_mean_of_means() {
    let scores = [("belief-a", 0.0), ("belief-a", 0.0), ("belief-a", 0.0), ("belief-b", 0.8)];
    let records: Vec<_> = scores.iter().map(|(b, _)| rec(b, ForecastState::Scored)).collect();
    let per_belief = calibration_counts(&records);
    let pooled = pooled_counts(&records);
    assert_eq!(pooled.scored, 4);
    assert_eq!((pooled.void, pooled.pending), (0, 0));
    assert_eq!(per_belief.len(), 2);
    let mean = pooled_mean(&scores, &pooled).unwrap();
    assert!((mean - 0.2).abs() < 1e-12, "pooled was {mean}");
    assert!((mean - 0.4).abs() > 1e-9);
}

#[test]
fn pooled_brier_is_none_when_nothing_scored() {
    let pooled = pooled_counts(&[]);
    assert_eq!((pooled.scored, pooled.void, pooled.pending), (0, 0, 0));
    assert!(pooled_mean(&[], &pooled).is_none());
    assert!(calibration_counts(&[]).is_empty());
}

#[test]
fn calibration_mean_brier_and_buckets() {
    let records = [
        rec("ga-quality-snapshot-pipeline-healthy", ForecastState::Scored),
        rec("ga-quality-snapshot-pipeline-healthy", ForecastState::Void),
        rec("ga-quality-snapshot-pipeline-healthy", ForecastState::Pending),
    ];
    let cal = calibration_counts(&records);
    let c = cal.get("ga-quality-snapshot-pipeline-healthy").unwrap();
    assert_eq!((c.scored, c.void, c.pending), (1, 1, 1));
    let pooled = pooled_counts(&records);
    let mean = pooled_mean(&[("ga-quality-snapshot-pipeline-healthy", 0.01)], &pooled).unwrap();
    assert!((mean - 0.01).abs() < 1e-12);
}

#[test]
fn calibration_excludes_forecasts_about_beliefs_the_trace_never_touched() {
    let (outcomes, finals) = one_claim_replay();
    let ids = [
        "benchmark-x-is-reliable".to_string(),
        "ga-chatbot-sonnet5-no-regression".to_string(),
        "demerzel-belief-lint-reduces-warns".to_string(),
    ];
    let keep = in_scope(&outcomes, &finals, &ids);
    assert_eq!(keep, vec![true, false, false]);
    let kept: Vec<_> = ids
        .iter()
        .zip(&keep)
        .filter(|(_, k)| **k)
        .map(|(b, _)| rec(b, ForecastState::Scored))
        .collect();
    let cal = calibration_counts(&kept);
    assert_eq!(cal.keys(), vec!["benchmark-x-is-reliable".to_string()]);
    assert_eq!(pooled_counts(&kept).scored, 1);
    let mean = pooled_mean(&[("benchmark-x-is-reliable", 0.10)], &pooled_counts(&kept)).unwrap();
    assert!((mean - 0.10).abs() < 1e-12, "pooled was {mean}");
}

#[test]
fn calibration_is_all_zero_when_no_forecast_concerns_this_trace() {
    let (outcomes, finals) = one_claim_replay();
    let keep = in_scope(&outcomes, &finals, &["some-other-repos-belief".to_string()]);
    assert_eq!(keep, vec![false]);
    let kept: Vec<(String, ForecastState)> = Vec::new();
    assert!(calibration_counts(&kept).is_empty());
    let pooled = pooled_counts(&kept);
    assert_eq!((pooled.scored, pooled.void, pooled.pending), (0, 0, 0));
    assert!(pooled_mean(&[], &pooled).is_none());
}

#[test]
fn a_belief_only_an_event_names_is_in_scope() {
    // A retracted claim can leave the final beliefs while still having been
    // reasoned about; both endpoints of a relation count as touched.
    let outcomes = vec![ResearchEventOutcome {
        event: ResearchEvent {
            cycle: 2,
            source: "ix".to_string(),
            payload: ResearchEventPayload::RelationDeclaration {
                from: "a".to_string(),
                to: "b".to_string(),
            },
        },
        actions: vec![],
        state_summary: String::new(),
        revisions: Vec::new(),
    }];
    let finals: KeyMap<HexValue> = KeyMap::new();
    let ids = ["b".to_string(), "a".to_string(), "c".to_string()];
    assert_eq!(in_scope(&outcomes, &finals, &ids), vec![true, true, false]);
}

#[test]
fn counts_are_per_belief_and_per_state() {
    let records = [
        rec("x", ForecastState::Pending),
        rec("y", ForecastState::Scored),
        rec("x", ForecastState::Scored),
        rec("x", ForecastState::Scored),
    ];
    let cal = calibration_counts(&records);
    assert_eq!(cal.keys(), vec!["x".to_string(), "y".to_string()]);
    assert_eq!(*cal.get("x").unwrap(), CalibrationCounts { scored: 2, void: 0, pending: 1 });
    assert_eq!(*cal.get("y").unwrap(), CalibrationCounts { scored: 1, void: 0, pending: 0 });
    assert_eq!(pooled_counts(&records), CalibrationCounts { scored: 3, void: 0, pending: 1 });
}
