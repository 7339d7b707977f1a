use hari_core::calibration::{calibration_counts, pooled_counts, ForecastState};
use hari_core::forecast::{is_past_horizon, latest_per_id};
use hari_core::keymap::KeyMap;
use hari_core::metrics::false_acceptance_count;
use hari_core::operator_model::parse_utc_to_epoch;
use hari_core::reliability::{report_tallies, Alignment, GradeCard, GRADE_SCHEMA};
use hari_core::research::{
    Action, HexValue, ResearchEvent, ResearchEventOutcome, ResearchEventPayload,
};
use hari_core::source_reliability::{outcomes_from_report, report_totals, SourceOutcomeRecord, SourceType};

#[test]
fn string_order_of_real_dates_is_time_order() {
    let stamps = [
        "2026-02-28T23:59:59Z",
        "2026-03-01T00:00:00Z",
        "2024-02-29T12:00:00Z",
        "2024-03-01T00:00:00Z",
        "1999-12-31T23:59:59Z",
        "2000-01-01T00:00:00Z",
        "2026-07-03T17:59:59Z",
        "2026-07-03T18:00:00Z",
        "2026-07-03T18:00:00Z",
        "0001-01-01T00:00:00Z",
        "9999-12-31T23:59:59Z",
    ];
    for a in stamps {
        for b in stamps {
            let (ea, eb) = (parse_utc_to_epoch(a).unwrap(), parse_utc_to_epoch(b).unwrap());
            assert_eq!(a < b, ea < eb, "{a} vs {b}");
            assert_eq!(a == b, ea == eb, "{a} vs {b}");
            assert_eq!(is_past_horizon(a, b), ea <= eb, "{a} vs {b}");
        }
    }
}

#[test]
fn a_day_past_the_end_of_its_month_breaks_the_correspondence() {
    // February 31 is canonical in form but names March 3, so it sorts before
    // March 2 while being later in time.
    let (feb31, mar2) = ("2026-02-31T00:00:00Z", "2026-03-02T00:00:00Z");
    assert!(feb31 < mar2);
    assert!(parse_utc_to_epoch(feb31).unwrap() > parse_utc_to_epoch(mar2).unwrap());
}

#[test]
fn the_ledger_keeps_one_record_per_forecast_id_the_last() {
    let ids: Vec<String> = ["a", "b", "a", "c", "b", "a"].iter().map(|s| s.to_string()).collect();
    let kept = latest_per_id(&ids);
    assert_eq!(kept, vec![3, 4, 5]);
    let mut seen: Vec<&str> = kept.iter().map(|&i| ids[i].as_str()).collect();
    seen.sort();
    assert_eq!(seen, vec!["a", "b", "c"]);
    assert!(latest_per_id(&[]).is_empty());
}

fn outcome(cycle: u64, source: &str, payload: ResearchEventPayload, actions: Vec<Action>) -> ResearchEventOutcome {
    ResearchEventOutcome {
        event: ResearchEvent { cycle, source: source.to_string(), payload },
        actions,
        state_summary: String::new(),
        revisions: Vec::new(),
    }
}

fn claim(p: &str) -> ResearchEventPayload {
    ResearchEventPayload::BeliefUpdate { proposition: p.to_string(), value: HexValue::Probable }
}

fn accept(p: &str) -> Action {
    Action::Accept { proposition: p.to_string(), value: HexValue::Probable }
}

#[test]
fn per_source_false_acceptances_add_up_to_the_replay_count() {
    let outcomes = vec![
        outcome(1, "s1", claim("p"), vec![accept("p")]),
        outcome(2, "s2", claim("q"), vec![accept("q")]),
        outcome(3, "s1", claim("r"), vec![accept("r"), Action::Wait]),
        outcome(
            4,
            "runner",
            ResearchEventPayload::Retraction { proposition: "q".to_string(), reason: "x".to_string(), retracts: None },
            vec![],
        ),
        outcome(
            5,
            "runner",
            ResearchEventPayload::Retraction { proposition: "r".to_string(), reason: "x".to_string(), retracts: None },
            vec![],
        ),
    ];
    let mut finals = KeyMap::new();
    finals.insert("p".to_string(), HexValue::Probable);
    finals.insert("q".to_string(), HexValue::Unknown);
    finals.insert("r".to_string(), HexValue::Unknown);
    let rows = outcomes_from_report("s", "2026-07-20T12:00:00Z", &outcomes, &finals);
    let per_source: u32 = rows.iter().map(|r| r.false_acceptances).sum();
    assert_eq!(per_source, false_acceptance_count(&outcomes, &finals));
    assert_eq!(per_source, 2);
}

fn row(source: &str, claims: u32, accepted: u32, false_acceptances: u32) -> SourceOutcomeRecord {
    SourceOutcomeRecord {
        schema: "hari-source-outcome-v0.1.0".to_string(),
        session_id: "s".to_string(),
        source: source.to_string(),
        source_type: SourceType::Unknown,
        recorded_at: "2026-07-20T12:00:00Z".to_string(),
        claims,
        accepted,
        false_acceptances,
        escalations: 1,
        false_escalations: 0,
    }
}

#[test]
fn the_pooled_source_bucket_is_the_sum_of_the_sources() {
    let rows = [row("b", 3, 2, 1), row("a", 1, 1, 0), row("b", 5, 4, 2), row("c", 0, 0, 0)];
    let report = report_totals(&rows);
    let (mut sessions, mut claims, mut accepted, mut false_acc, mut esc): (usize, u32, u32, u32, u32) = (0, 0, 0, 0, 0);
    for k in report.by_source.keys() {
        let t = report.by_source.get(&k).unwrap();
        sessions += t.sessions;
        claims += t.claims;
        accepted += t.accepted;
        false_acc += t.false_acceptances;
        esc += t.escalations;
    }
    let p = report.pooled;
    assert_eq!((sessions, claims, accepted, false_acc, esc), (p.sessions, p.claims, p.accepted, p.false_acceptances, p.escalations));
    assert_eq!((p.sessions, p.claims, p.accepted, p.false_acceptances), (4, 9, 7, 3));
}

fn card(agent: Option<&str>, title: &str, alignment: Alignment) -> GradeCard {
    GradeCard {
        schema: GRADE_SCHEMA.to_string(),
        pr_number: 1,
        merge_sha: "0".repeat(40),
        title: title.to_string(),
        alignment,
        agent: agent.map(str::to_string),
    }
}

#[test]
fn the_pooled_grade_bucket_is_the_sum_of_the_agents_and_each_agent_of_its_classes() {
    let cards = [
        card(Some("jules"), "feat: a", Alignment::High),
        card(Some("jules"), "feat: b", Alignment::Medium),
        card(Some("jules"), "fix: c", Alignment::High),
        card(None, "docs: d", Alignment::Low),
        card(Some("ada"), "chore: e", Alignment::Medium),
    ];
    let t = report_tallies(&cards);
    let (mut n, mut pts): (usize, u64) = (0, 0);
    for i in 0..t.by_agent.len() {
        let a = t.by_agent.value_at(i);
        n += a.overall.n;
        pts += a.overall.half_points;
        let (mut cn, mut cp): (usize, u64) = (0, 0);
        for j in 0..a.by_class.len() {
            cn += a.by_class.value_at(j).n;
            cp += a.by_class.value_at(j).half_points;
        }
        assert_eq!((cn, cp), (a.overall.n, a.overall.half_points));
    }
    assert_eq!((n, pts), (t.pooled.n, t.pooled.half_points));
    assert_eq!((t.pooled.n, t.pooled.half_points), (5, 6));
}

#[test]
fn the_pooled_forecast_counts_are_the_sum_of_the_beliefs() {
    let records: Vec<(String, ForecastState)> = [
        ("x", ForecastState::Scored),
        ("y", ForecastState::Void),
        ("x", ForecastState::Pending),
        ("z", ForecastState::Scored),
        ("y", ForecastState::Scored),
    ]
    .iter()
    .map(|(b, s)| (b.to_string(), *s))
    .collect();
    let per = calibration_counts(&records);
    let pooled = pooled_counts(&records);
    let (mut s, mut v, mut p): (usize, usize, usize) = (0, 0, 0);
    for k in per.keys() {
        let c = per.get(&k).unwrap();
        s += c.scored;
        v += c.void;
        p += c.pending;
    }
    assert_eq!((s, v, p), (pooled.scored, pooled.void, pooled.pending));
    assert_eq!((s, v, p), (3, 1, 1));
}
