use hari_core::reliability::{
    alignment_half_points, report_tallies, task_class, Alignment, GradeCard, GRADE_SCHEMA,
    RELIABILITY_REPORT_SCHEMA,
};

fn card(agent: Option<&str>, title: &str, alignment: Alignment, seed: u8) -> GradeCard {
    GradeCard {
        schema: GRADE_SCHEMA.to_string(),
        pr_number: 100 + seed as u64,
        merge_sha: format!("{:040x}", seed as u128),
        title: title.to_string(),
        alignment,
        agent: agent.map(|a| a.to_string()),
    }
}

#[test]
fn task_class_derivation_handles_scope_bang_case_and_unknown() {
    assert_eq!(task_class("feat: add thing"), "feat");
    assert_eq!(task_class("fix(cortex): catch LLM exceptions"), "fix");
    assert_eq!(task_class("refactor!: breaking cleanup"), "refactor");
    assert_eq!(task_class("Docs(readme): typo"), "docs");
    assert_eq!(task_class("Close the pattern-selector seam"), "other");
    assert_eq!(task_class(""), "other");
}

#[test]
fn task_class_trims_unicode_white_space_and_one_bang() {
    assert_eq!(task_class("  CHORE \t: bump"), "chore");
    assert_eq!(task_class("\u{3000}perf!!: twice"), "other");
    assert_eq!(task_class("ci!"), "ci");
    assert_eq!(task_class("build (deps)!: x"), "build");
    assert_eq!(task_class("Stylé: accents stay"), "other");
}

#[test]
fn alignment_scores_are_pinned_in_half_points() {
    assert_eq!(alignment_half_points(Alignment::High), 2);
    assert_eq!(alignment_half_points(Alignment::Medium), 1);
    assert_eq!(alignment_half_points(Alignment::Low), 0);
    assert_eq!(GRADE_SCHEMA, "pr-grade-v1");
    assert_eq!(RELIABILITY_REPORT_SCHEMA, "hari-agent-reliability-report-v0.1.0");
}

#[test]
fn report_tallies_pooled_and_per_agent_split() {
    let cards = vec![
        card(Some("jules"), "feat: a", Alignment::High, 1),
        card(Some("jules"), "feat: b", Alignment::Medium, 2),
        card(Some("jules"), "fix: c", Alignment::High, 3),
        card(None, "docs: d", Alignment::Low, 4),
    ];
    let t = report_tallies(&cards);
    assert_eq!(t.graded_prs, 4);
    // Pooled: (1 + 0.5 + 1 + 0) = 2.5 points = 5 half points over 4 cards.
    assert_eq!((t.pooled.n, t.pooled.half_points), (4, 5));
    let jules = t.by_agent.get("jules").unwrap();
    assert_eq!((jules.overall.n, jules.overall.half_points), (3, 5));
    assert_eq!(jules.by_class.get("feat").unwrap().n, 2);
    assert_eq!(jules.by_class.get("feat").unwrap().half_points, 3);
    assert_eq!(jules.by_class.get("fix").unwrap().n, 1);
    let unknown = t.by_agent.get("unknown").unwrap();
    assert_eq!(unknown.overall.n, 1);
    assert_eq!(unknown.by_class.get("docs").unwrap().n, 1);
}

#[test]
fn empty_ledger_tallies_nothing() {
    let t = report_tallies(&[]);
    assert_eq!(t.graded_prs, 0);
    assert_eq!((t.pooled.n, t.pooled.half_points), (0, 0));
    assert!(t.by_agent.is_empty());
}

#[test]
fn test_pins_prior_and_alignment_scores() {
    use_prior_pins();
    assert_eq!(alignment_half_points(Alignment::High) as f64 / 2.0, 1.0);
    assert_eq!(alignment_half_points(Alignment::Medium) as f64 / 2.0, 0.5);
    assert_eq!(alignment_half_points(Alignment::Low) as f64 / 2.0, 0.0);
}

fn use_prior_pins() {
    // The agent view shares the source view's prior: weight 2 at mean 1/2.
    let w = hari_core::source_reliability::PRIOR_WEIGHT as f64;
    let m = hari_core::source_reliability::PRIOR_MEAN_NUMERATOR as f64
        / hari_core::source_reliability::PRIOR_MEAN_DENOMINATOR as f64;
    assert_eq!((w, m), (2.0, 0.5));
}

#[test]
fn reliability_empty_ledger_reports_prior_not_nan() {
    let t = report_tallies(&[]);
    assert_eq!(t.graded_prs, 0);
    assert_eq!(t.pooled.n, 0);
    // With no cards there is no mean, and the smoothed score is the prior.
    let smoothed = (t.pooled.half_points as f64 / 2.0 + 2.0 * 0.5) / (t.pooled.n as f64 + 2.0);
    assert!((smoothed - 0.5).abs() < 1e-12);
    assert!(t.by_agent.keys().is_empty());
}

/// The report's ratios, read off the tallies as the command line reads them.
fn mean_and_smoothed(n: usize, half_points: u64) -> (Option<f64>, f64) {
    let sum = half_points as f64 / 2.0;
    let mean = if n > 0 { Some(sum / n as f64) } else { None };
    (mean, (sum + 2.0 * 0.5) / (n as f64 + 2.0))
}

#[test]
fn report_math_pooled_and_per_agent_split() {
    let cards = vec![
        card(Some("jules"), "feat: a", Alignment::High, 1),
        card(Some("jules"), "feat: b", Alignment::Medium, 2),
        card(Some("jules"), "fix: c", Alignment::High, 3),
        card(None, "docs: d", Alignment::Low, 4),
    ];
    let rep = report_tallies(&cards);
    assert_eq!(rep.graded_prs, 4);
    let (mean, smoothed) = mean_and_smoothed(rep.pooled.n, rep.pooled.half_points);
    assert_eq!(rep.pooled.n, 4);
    assert!((mean.unwrap() - 0.625).abs() < 1e-12);
    assert!((smoothed - 3.5 / 6.0).abs() < 1e-12);
    let jules = rep.by_agent.get("jules").unwrap();
    assert_eq!(jules.overall.n, 3);
    assert!((mean_and_smoothed(jules.overall.n, jules.overall.half_points).1 - 0.7).abs() < 1e-12);
    let feat = jules.by_class.get("feat").unwrap();
    assert_eq!(feat.n, 2);
    assert!((mean_and_smoothed(feat.n, feat.half_points).0.unwrap() - 0.75).abs() < 1e-12);
    assert_eq!(jules.by_class.get("fix").unwrap().n, 1);
    let unknown = rep.by_agent.get("unknown").unwrap();
    assert_eq!(unknown.overall.n, 1);
    assert_eq!(unknown.by_class.get("docs").unwrap().n, 1);
}
