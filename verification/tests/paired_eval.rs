use hari_core::paired_eval::{
    grade_arm, outcome_acted, outcome_waited, score_false_acceptances, score_false_rejections,
    score_paired, separations, ClaimLabel, ClaimOutcome, DecisionLabel, ExpectedDecision,
    PairDefect, PairOutcome, PairSeparation, PairedScore,
};
use hari_core::paired_eval::{compare_arms, PairedComparison, PairedFixture};
use hari_core::research::{
    Action, HexValue, PriorityModel, ResearchEvent, ResearchEventOutcome, ResearchEventPayload,
    ResearchTrace,
};
use hari_core::unassisted::replay_unassisted;

fn label(event_index: usize, pair: &str, expect: ExpectedDecision) -> DecisionLabel {
    DecisionLabel {
        event_index,
        pair: pair.to_string(),
        expect,
    }
}

fn outcome(cycle: u64, payload: ResearchEventPayload, actions: Vec<Action>) -> ResearchEventOutcome {
    ResearchEventOutcome {
        event: ResearchEvent {
            cycle,
            source: "ix-agent-a".to_string(),
            payload,
        },
        actions,
        state_summary: String::new(),
        revisions: Vec::new(),
    }
}

fn accept(p: &str) -> Action {
    Action::Accept {
        proposition: p.to_string(),
        value: HexValue::Probable,
    }
}

/// The replay of a two-event trace under the default model: a `Probable`
/// claim at event 0 draws an `Accept`; a goal update at event 1 carries no
/// proposition and draws a `Wait`.
fn act_then_abstain() -> Vec<ResearchEventOutcome> {
    vec![
        outcome(
            1,
            ResearchEventPayload::BeliefUpdate {
                proposition: "benchmark-x-is-reliable".to_string(),
                value: HexValue::Probable,
            },
            vec![accept("benchmark-x-is-reliable")],
        ),
        outcome(
            2,
            ResearchEventPayload::GoalUpdate {
                key: "characterise-x".to_string(),
                description: "characterise benchmark x".to_string(),
                status: Some(HexValue::Probable),
            },
            vec![Action::Wait],
        ),
    ]
}

/// The replay of `n` claims all stamped cycle 1 under the default model:
/// the first twelve are accepted, and from the twelfth on the decayed score
/// falls under the wait threshold and the arm withholds.
fn claim_burst(n: usize) -> Vec<ResearchEventOutcome> {
    (0..n)
        .map(|i| {
            let p = format!("claim-{i:02}");
            let actions = if i < 12 { vec![accept(&p)] } else { vec![Action::Wait] };
            outcome(
                1,
                ResearchEventPayload::BeliefUpdate {
                    proposition: p,
                    value: HexValue::Probable,
                },
                actions,
            )
        })
        .collect()
}

fn stood(p: &str) -> ClaimLabel {
    ClaimLabel {
        proposition: p.to_string(),
        outcome: ClaimOutcome::Stood,
    }
}

fn accuracy(score: &PairedScore) -> Option<f64> {
    score
        .paired_accuracy()
        .map(|(n, d)| n as f64 / d as f64)
}

#[test]
fn a_pair_answered_correctly_on_both_halves_scores_one() {
    let outcomes = act_then_abstain();
    assert!(outcome_acted(&outcomes[0].actions));
    assert!(!outcome_acted(&outcomes[1].actions));

    let score = score_paired(
        &outcomes,
        &[
            label(0, "p1", ExpectedDecision::Act),
            label(1, "p1", ExpectedDecision::Abstain),
        ],
    );

    assert_eq!(score.pairs, 1);
    assert_eq!(score.both_correct, 1);
    assert_eq!(accuracy(&score), Some(1.0));
    assert_eq!((score.act_correct, score.act_total), (1, 1));
    assert_eq!((score.abstain_correct, score.abstain_total), (1, 1));
    assert!(score.defects.is_empty());
}

#[test]
fn half_credit_is_not_credit() {
    let outcomes = act_then_abstain();
    let inverted = score_paired(
        &outcomes,
        &[
            label(0, "p1", ExpectedDecision::Abstain),
            label(1, "p1", ExpectedDecision::Act),
        ],
    );
    assert_eq!(inverted.pairs, 1);
    assert_eq!(inverted.both_correct, 0);
    assert_eq!(accuracy(&inverted), Some(0.0));
    assert_eq!(inverted.act_correct, 0);
    assert_eq!(inverted.abstain_correct, 0);

    let half = score_paired(
        &outcomes,
        &[
            label(0, "p1", ExpectedDecision::Act),
            label(0, "p1", ExpectedDecision::Abstain),
        ],
    );
    assert_eq!(half.pairs, 1);
    assert_eq!(half.both_correct, 0, "half credit leaked into the primary");
    assert_eq!(accuracy(&half), Some(0.0));
    assert_eq!(half.act_correct, 1);
    assert_eq!(half.abstain_correct, 0);
}

#[test]
fn an_ungraded_run_has_no_accuracy_rather_than_zero() {
    let outcomes = act_then_abstain();
    let score = score_paired(&outcomes, &[]);
    assert_eq!(score.pairs, 0);
    assert!(score.is_ungraded());
    assert_eq!(accuracy(&score), None);
}

#[test]
fn a_pair_missing_a_half_is_reported_not_scored() {
    let outcomes = act_then_abstain();
    let score = score_paired(&outcomes, &[label(0, "lonely", ExpectedDecision::Act)]);

    assert_eq!(score.pairs, 0);
    assert!(score.is_ungraded(), "an unpaired label must not be graded");
    assert_eq!(
        score.defects,
        vec![PairDefect::MissingHalf {
            pair: "lonely".to_string(),
            present: ExpectedDecision::Act,
        }]
    );
}

#[test]
fn a_label_past_the_end_of_the_replay_is_reported_not_scored() {
    let outcomes = act_then_abstain();
    let score = score_paired(
        &outcomes,
        &[
            label(0, "p1", ExpectedDecision::Act),
            label(99, "p1", ExpectedDecision::Abstain),
        ],
    );

    assert_eq!(score.pairs, 0);
    assert!(score.is_ungraded());
    assert_eq!(
        score.defects,
        vec![PairDefect::EventIndexOutOfRange {
            pair: "p1".to_string(),
            event_index: 99,
        }]
    );
}

#[test]
fn a_duplicated_half_is_reported_not_scored() {
    let outcomes = act_then_abstain();
    let score = score_paired(
        &outcomes,
        &[
            label(0, "p1", ExpectedDecision::Act),
            label(1, "p1", ExpectedDecision::Act),
            label(1, "p1", ExpectedDecision::Abstain),
        ],
    );

    assert_eq!(score.pairs, 0, "an ambiguous pair must not be graded");
    assert_eq!(
        score.defects,
        vec![PairDefect::DuplicateHalf {
            pair: "p1".to_string(),
            half: ExpectedDecision::Act,
        }]
    );
}

#[test]
fn accuracy_is_over_pairs_not_halves() {
    let outcomes = act_then_abstain();
    let score = score_paired(
        &outcomes,
        &[
            label(0, "p1", ExpectedDecision::Act),
            label(1, "p1", ExpectedDecision::Abstain),
            label(1, "p2", ExpectedDecision::Act),
            label(1, "p2", ExpectedDecision::Abstain),
        ],
    );

    assert_eq!(score.pairs, 2);
    assert_eq!(score.both_correct, 1);
    assert_eq!(accuracy(&score), Some(0.5));
    assert_eq!(score.act_correct + score.abstain_correct, 3);
}

#[test]
fn escalate_counts_as_acting() {
    assert!(outcome_acted(&[Action::Escalate {
        reason: "conflicting evidence".to_string(),
    }]));
}

#[test]
fn wait_and_log_alone_are_not_acting() {
    assert!(!outcome_acted(&[Action::Wait]));
    assert!(!outcome_acted(&[Action::Log("observed".to_string())]));
    assert!(!outcome_acted(&[
        Action::Wait,
        Action::Log("observed".to_string())
    ]));
    assert!(!outcome_acted(&[]));
}

#[test]
fn a_wait_mixed_with_a_substantive_action_counts_as_acting() {
    assert!(outcome_acted(&[
        Action::Wait,
        Action::Accept {
            proposition: "p".to_string(),
            value: HexValue::Probable,
        },
    ]));
}

#[test]
fn a_wait_on_a_claim_that_stood_is_a_false_rejection() {
    let outcomes = claim_burst(16);
    let claims: Vec<ClaimLabel> = (0..16).map(|i| stood(&format!("claim-{i:02}"))).collect();
    let score = score_false_rejections(&outcomes, &claims);

    assert_eq!(score.false_rejections, 4);
    assert_eq!(score.scored, 4);
    assert_eq!(score.excused, 0);
    assert!(score.unlabeled.is_empty());
}

#[test]
fn the_verdict_does_not_depend_on_the_arms_own_beliefs() {
    // The scorer reads only the outcomes and the authored labels: there is no
    // belief state it could consult. Scoring twice, and against a relabeled
    // copy of the same outcomes, gives the same verdict.
    let outcomes = claim_burst(16);
    let claims: Vec<ClaimLabel> = (0..16).map(|i| stood(&format!("claim-{i:02}"))).collect();
    let before = score_false_rejections(&outcomes, &claims);
    let mut rewritten = outcomes.clone();
    for o in rewritten.iter_mut() {
        o.state_summary = "every belief contradictory".to_string();
    }
    let after = score_false_rejections(&rewritten, &claims);

    assert_eq!(
        before, after,
        "false-rejection verdict moved when only the arm's own beliefs changed"
    );
    assert_eq!(after.false_rejections, 4);
}

#[test]
fn withholding_on_a_claim_that_was_withdrawn_is_excused() {
    let outcomes = claim_burst(16);
    let claims: Vec<ClaimLabel> = (0..16)
        .map(|i| ClaimLabel {
            proposition: format!("claim-{i:02}"),
            outcome: ClaimOutcome::Withdrawn,
        })
        .collect();
    let score = score_false_rejections(&outcomes, &claims);

    assert_eq!(score.false_rejections, 0, "restraint was charged as a tax");
    assert_eq!(score.excused, 4);
    assert_eq!(score.scored, 4);
}

#[test]
fn an_unlabeled_claim_wait_is_reported_not_excused() {
    let outcomes = claim_burst(16);
    let score = score_false_rejections(&outcomes, &[stood("claim-12")]);

    assert_eq!(score.false_rejections, 1);
    assert_eq!(
        score.unlabeled,
        vec!["claim-13", "claim-14", "claim-15"],
        "missing ground truth was silently treated as a free pass"
    );
}

#[test]
fn an_unresolved_claim_is_scored_neither_way() {
    let outcomes = claim_burst(16);
    let claims: Vec<ClaimLabel> = (0..16)
        .map(|i| ClaimLabel {
            proposition: format!("claim-{i:02}"),
            outcome: ClaimOutcome::Unresolved,
        })
        .collect();
    let score = score_false_rejections(&outcomes, &claims);

    assert_eq!(
        (score.false_rejections, score.excused, score.scored),
        (0, 0, 0)
    );
    assert_eq!(score.unresolved, 4);
    assert!(score.unlabeled.is_empty());
}

#[test]
fn the_false_acceptance_verdict_does_not_depend_on_the_arms_own_beliefs() {
    let outcomes = act_then_abstain();
    let claims = vec![ClaimLabel {
        proposition: "benchmark-x-is-reliable".to_string(),
        outcome: ClaimOutcome::Withdrawn,
    }];
    let before = score_false_acceptances(&outcomes, &claims);
    assert_eq!(before.false_acceptances, 1, "precondition: the accept is charged");

    for value in [
        HexValue::True,
        HexValue::Probable,
        HexValue::Unknown,
        HexValue::Doubtful,
        HexValue::False,
        HexValue::Contradictory,
    ] {
        let mut rewritten = outcomes.clone();
        rewritten[0].state_summary = format!("benchmark-x-is-reliable = {value:?}");
        assert_eq!(
            score_false_acceptances(&rewritten, &claims),
            before,
            "verdict moved when the arm's own belief became {value:?}"
        );
    }
}

#[test]
fn an_unlabeled_accept_is_reported_not_forgiven() {
    let outcomes = act_then_abstain();
    let score = score_false_acceptances(&outcomes, &[]);
    assert_eq!((score.scored, score.false_acceptances), (0, 0));
    assert_eq!(score.unlabeled, vec!["benchmark-x-is-reliable".to_string()]);
}

#[test]
fn bookkeeping_actions_are_not_decisions() {
    assert!(!outcome_acted(&[Action::UpdateBelief {
        proposition: "p".to_string(),
        value: HexValue::Probable,
    }]));
    assert!(!outcome_acted(&[Action::SendMessage]));
}

// --- the library's own cases ---------------------------------------------

#[test]
fn pairs_are_graded_in_name_order_and_defects_follow_it() {
    let outcomes = act_then_abstain();
    let score = score_paired(
        &outcomes,
        &[
            label(0, "zeta", ExpectedDecision::Act),
            label(1, "zeta", ExpectedDecision::Abstain),
            label(0, "beta", ExpectedDecision::Abstain),
            label(0, "alpha", ExpectedDecision::Act),
            label(1, "alpha", ExpectedDecision::Abstain),
        ],
    );
    let names: Vec<&str> = score.per_pair.iter().map(|p| p.pair.as_str()).collect();
    assert_eq!(names, vec!["alpha", "zeta"]);
    assert_eq!(
        score.defects,
        vec![PairDefect::MissingHalf {
            pair: "beta".to_string(),
            present: ExpectedDecision::Abstain,
        }]
    );
}

#[test]
fn both_halves_out_of_range_are_both_reported() {
    let outcomes = act_then_abstain();
    let score = score_paired(
        &outcomes,
        &[
            label(7, "p", ExpectedDecision::Act),
            label(8, "p", ExpectedDecision::Abstain),
        ],
    );
    assert_eq!(
        score.defects,
        vec![
            PairDefect::EventIndexOutOfRange {
                pair: "p".to_string(),
                event_index: 7,
            },
            PairDefect::EventIndexOutOfRange {
                pair: "p".to_string(),
                event_index: 8,
            },
        ]
    );
}

#[test]
fn per_pair_reconstructs_the_aggregate_on_a_mixed_label_set() {
    let outcomes = act_then_abstain();
    let score = score_paired(
        &outcomes,
        &[
            label(0, "p1", ExpectedDecision::Act),
            label(1, "p1", ExpectedDecision::Abstain),
            label(1, "p2", ExpectedDecision::Act),
            label(1, "p2", ExpectedDecision::Abstain),
            label(0, "p3", ExpectedDecision::Abstain),
            label(0, "p3", ExpectedDecision::Act),
        ],
    );
    assert_eq!(score.per_pair.len(), score.pairs);
    assert_eq!(
        score.per_pair.iter().filter(|p| p.both_correct()).count(),
        score.both_correct
    );
    assert_eq!(
        score.per_pair.iter().filter(|p| p.act_correct).count(),
        score.act_correct
    );
    assert_eq!(
        score.per_pair.iter().filter(|p| p.abstain_correct).count(),
        score.abstain_correct
    );
    assert!(score.both_correct <= score.act_correct.min(score.abstain_correct));
}

#[test]
fn gradeability_does_not_depend_on_what_the_arm_did() {
    let labels = [
        label(0, "p1", ExpectedDecision::Act),
        label(1, "p1", ExpectedDecision::Abstain),
        label(0, "orphan", ExpectedDecision::Act),
        label(5, "far", ExpectedDecision::Act),
        label(1, "far", ExpectedDecision::Abstain),
    ];
    let a = act_then_abstain();
    let mut b = act_then_abstain();
    b[0].actions = vec![Action::Wait];
    b[1].actions = vec![Action::Escalate {
        reason: "x".to_string(),
    }];
    let sa = score_paired(&a, &labels);
    let sb = score_paired(&b, &labels);
    assert_eq!(sa.defects, sb.defects);
    assert_eq!(sa.pairs, sb.pairs);
    let na: Vec<&str> = sa.per_pair.iter().map(|p| p.pair.as_str()).collect();
    let nb: Vec<&str> = sb.per_pair.iter().map(|p| p.pair.as_str()).collect();
    assert_eq!(na, nb);
    assert_ne!(sa.both_correct, sb.both_correct);
}

#[test]
fn a_later_claim_label_replaces_an_earlier_one() {
    let outcomes = claim_burst(13);
    let claims = vec![
        stood("claim-12"),
        ClaimLabel {
            proposition: "claim-12".to_string(),
            outcome: ClaimOutcome::Withdrawn,
        },
    ];
    let score = score_false_rejections(&outcomes, &claims);
    assert_eq!((score.false_rejections, score.excused), (0, 1));
}

#[test]
fn a_wait_on_a_supersession_touches_both_claims() {
    let outcomes = vec![outcome(
        3,
        ResearchEventPayload::Supersession {
            proposition: "old".to_string(),
            superseded_by: "new".to_string(),
            reason: "replaced".to_string(),
        },
        vec![Action::Wait],
    )];
    let score = score_false_rejections(&outcomes, &[stood("new")]);
    assert_eq!(score.false_rejections, 1);
    assert_eq!(score.unlabeled, vec!["old".to_string()]);
}

#[test]
fn outcome_waited_sees_any_wait() {
    assert!(outcome_waited(&[Action::Log("x".to_string()), Action::Wait]));
    assert!(!outcome_waited(&[accept("p")]));
    assert!(!outcome_waited(&[]));
}

#[test]
fn unlabeled_accepts_are_listed_once_and_in_order() {
    let outcomes = vec![
        outcome(1, ResearchEventPayload::GoalUpdate { key: "g".to_string(), description: "d".to_string(), status: None },
            vec![accept("zz"), accept("aa"), accept("zz")]),
    ];
    let score = score_false_acceptances(&outcomes, &[]);
    assert_eq!(score.unlabeled, vec!["aa".to_string(), "zz".to_string()]);
    let graded = score_false_acceptances(&outcomes, &[stood("zz"), ClaimLabel { proposition: "aa".to_string(), outcome: ClaimOutcome::Unresolved }]);
    assert_eq!((graded.warranted, graded.scored, graded.unresolved), (2, 2, 1));
}

#[test]
fn an_arm_carries_its_grades_and_conditioned_abstention() {
    let outcomes = act_then_abstain();
    let labels = [
        label(0, "p1", ExpectedDecision::Act),
        label(1, "p1", ExpectedDecision::Abstain),
    ];
    let arm = grade_arm("recency_decay", Some(PriorityModel::RecencyDecay), &outcomes, &labels, &[stood("benchmark-x-is-reliable")]);
    assert_eq!(arm.arm, "recency_decay");
    assert_eq!(arm.priority_model, Some(PriorityModel::RecencyDecay));
    assert_eq!(arm.paired.both_correct, 1);
    assert_eq!(arm.conditioned_abstention.abstained_when_warranted, 1);
    assert_eq!(arm.conditioned_abstention.abstained_when_unwarranted, 0);
    assert_eq!(arm.conditioned_abstention.rate_when_warranted(), Some((1, 1)));
    assert_eq!(arm.conditioned_abstention.rate_when_unwarranted(), Some((0, 1)));
    assert_eq!(arm.false_acceptances.warranted, 1);
    assert_eq!(arm.false_rejections.scored, 0);
    let empty = grade_arm("x", None, &outcomes, &[], &[]);
    assert_eq!(empty.conditioned_abstention.rate_when_warranted(), None);
}

fn arm_with(pairs: &[(&str, bool)]) -> hari_core::paired_eval::PairedArm {
    let outcomes = act_then_abstain();
    let mut arm = grade_arm("a", None, &outcomes, &[], &[]);
    arm.paired.per_pair = pairs
        .iter()
        .map(|(p, ok)| PairOutcome {
            pair: p.to_string(),
            act_correct: *ok,
            abstain_correct: true,
        })
        .collect();
    arm
}

#[test]
fn separations_name_the_pairs_the_arms_split_on() {
    let u = arm_with(&[("p1", true), ("p2", true)]);
    let d = arm_with(&[("p1", true), ("p2", true)]);
    let l = arm_with(&[("p1", true), ("p2", true)]);
    let s = arm_with(&[("p1", false), ("p2", true), ("p3", true)]);
    assert_eq!(
        separations(&u, &d, &l, &s),
        vec![
            PairSeparation {
                pair: "p1".to_string(),
                unassisted: Some(true),
                recency_decay: Some(true),
                lie: Some(true),
                subjective_logic: Some(false),
            },
            PairSeparation {
                pair: "p3".to_string(),
                unassisted: None,
                recency_decay: None,
                lie: None,
                subjective_logic: Some(true),
            },
        ]
    );
    assert!(separations(&u, &d, &l, &u).is_empty());
}

// Three-arm grading. The hexavalent arms commit on the `Probable` claim and
// withhold on the goal update; the subjective-logic arm's single `Probable`
// report does not clear its accept threshold, so it withholds at both events.

fn withhold_twice() -> Vec<ResearchEventOutcome> {
    let mut v = act_then_abstain();
    v[0].actions = vec![Action::Wait];
    v
}

fn fixture_labels() -> Vec<DecisionLabel> {
    vec![
        label(0, "p1", ExpectedDecision::Act),
        label(1, "p1", ExpectedDecision::Abstain),
    ]
}

fn fixture_claims() -> Vec<ClaimLabel> {
    vec![stood("benchmark-x-is-reliable")]
}

fn fixture(labels: Vec<DecisionLabel>) -> PairedFixture {
    PairedFixture {
        trace: ResearchTrace::from(act_then_abstain().into_iter().map(|o| o.event).collect::<Vec<_>>()),
        labels,
        claims: fixture_claims(),
        provenance: None,
    }
}

/// The fixture graded under all four arms: the unassisted arm is the
/// library's own replay of the trace.
fn grade_all(labels: Vec<DecisionLabel>) -> PairedComparison {
    let fx = fixture(labels);
    let unassisted = replay_unassisted(fx.trace.clone()).outcomes;
    compare_arms(&fx, &unassisted, &act_then_abstain(), &act_then_abstain(), &withhold_twice())
}

#[test]
fn theorem_gradeability_is_arm_independent() {
    let graded = grade_all(fixture_labels());
    for arm in [&graded.recency_decay, &graded.lie, &graded.subjective_logic] {
        assert_eq!(arm.paired.defects, graded.recency_decay.paired.defects);
        assert_eq!(arm.paired.pairs, graded.recency_decay.paired.pairs);
        let names: Vec<&str> = arm.paired.per_pair.iter().map(|p| p.pair.as_str()).collect();
        let expected: Vec<&str> =
            graded.recency_decay.paired.per_pair.iter().map(|p| p.pair.as_str()).collect();
        assert_eq!(names, expected);
    }
}

#[test]
fn each_arm_reports_its_own_priority_model() {
    let graded = grade_all(fixture_labels());
    assert_eq!(graded.recency_decay.priority_model, Some(PriorityModel::RecencyDecay));
    assert_eq!(graded.lie.priority_model, Some(PriorityModel::Lie));
    assert_eq!(graded.subjective_logic.priority_model, Some(PriorityModel::SubjectiveLogic));
    assert_eq!(graded.unassisted.priority_model, None);
    assert_eq!(graded.unassisted.arm, "ix_unassisted");
}

#[test]
fn theorem_per_pair_reconstructs_the_aggregate() {
    let graded = grade_all(fixture_labels());
    for arm in [&graded.recency_decay, &graded.lie, &graded.subjective_logic] {
        let s = &arm.paired;
        assert_eq!(s.per_pair.len(), s.pairs);
        assert_eq!(s.per_pair.iter().filter(|p| p.both_correct()).count(), s.both_correct);
        assert_eq!(s.per_pair.iter().filter(|p| p.act_correct).count(), s.act_correct);
        assert_eq!(s.per_pair.iter().filter(|p| p.abstain_correct).count(), s.abstain_correct);
    }
}

#[test]
fn subjective_logic_pays_for_its_caution_on_the_act_half() {
    let graded = grade_all(fixture_labels());
    assert_eq!(accuracy(&graded.recency_decay.paired), Some(1.0));
    assert_eq!(accuracy(&graded.lie.paired), Some(1.0));
    assert_eq!(accuracy(&graded.subjective_logic.paired), Some(0.0));
    let sl = &graded.subjective_logic.paired.per_pair[0];
    assert!(!sl.act_correct);
    assert!(sl.abstain_correct);
    assert_eq!(graded.subjective_logic.false_rejections.false_rejections, 1);
    assert_eq!(graded.recency_decay.false_rejections.false_rejections, 0);
}

#[test]
fn separating_pairs_names_the_pair_the_arms_split_on() {
    let graded = grade_all(fixture_labels());
    assert!(!graded.is_undiscriminating());
    assert_eq!(
        graded.separating_pairs,
        vec![PairSeparation {
            pair: "p1".to_string(),
            unassisted: Some(true),
            recency_decay: Some(true),
            lie: Some(true),
            subjective_logic: Some(false),
        }]
    );
}

#[test]
fn a_fixture_no_arm_splits_on_is_reported_as_undiscriminating() {
    let labels = vec![
        label(1, "p1", ExpectedDecision::Act),
        label(0, "p1", ExpectedDecision::Abstain),
    ];
    let graded = grade_all(labels);
    assert_eq!(graded.recency_decay.paired.pairs, 1);
    assert_eq!(graded.subjective_logic.paired.pairs, 1);
    assert!(graded.is_undiscriminating());
    assert!(graded.separating_pairs.is_empty());
}

#[test]
fn an_ungradeable_pair_yields_no_separation_entry_but_a_defect_in_every_arm() {
    let mut labels = fixture_labels();
    labels.push(label(0, "orphan", ExpectedDecision::Act));
    let graded = grade_all(labels);
    for arm in [&graded.recency_decay, &graded.lie, &graded.subjective_logic] {
        assert_eq!(
            arm.paired.defects,
            vec![PairDefect::MissingHalf {
                pair: "orphan".to_string(),
                present: ExpectedDecision::Act,
            }]
        );
    }
    assert!(graded.separating_pairs.iter().all(|x| x.pair != "orphan"));
}

#[test]
fn every_labelled_pair_is_graded_or_reported_exactly_once() {
    let outcomes = act_then_abstain();
    let labels = [
        label(0, "m", ExpectedDecision::Act),
        label(1, "m", ExpectedDecision::Abstain),
        label(0, "d", ExpectedDecision::Act),
        label(0, "d", ExpectedDecision::Act),
        label(1, "d", ExpectedDecision::Abstain),
        label(9, "o", ExpectedDecision::Act),
        label(1, "o", ExpectedDecision::Abstain),
        label(1, "h", ExpectedDecision::Abstain),
        label(1, "b", ExpectedDecision::Act),
        label(0, "b", ExpectedDecision::Abstain),
    ];
    let score = score_paired(&outcomes, &labels);
    let graded: Vec<&str> = score.per_pair.iter().map(|p| p.pair.as_str()).collect();
    assert_eq!(graded, vec!["b", "m"]);
    let reported: Vec<&str> = score
        .defects
        .iter()
        .map(|d| match d {
            PairDefect::MissingHalf { pair, .. }
            | PairDefect::DuplicateHalf { pair, .. }
            | PairDefect::EventIndexOutOfRange { pair, .. } => pair.as_str(),
        })
        .collect();
    assert_eq!(reported, vec!["d", "h", "o"]);
    for name in ["b", "d", "h", "m", "o"] {
        let g = graded.contains(&name);
        let r = reported.contains(&name);
        assert!(g != r, "{name} must be graded or reported, not both or neither");
    }
}
