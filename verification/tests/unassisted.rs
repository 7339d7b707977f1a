use hari_core::research::{Action, HexValue, ResearchEvent, ResearchEventPayload, ResearchTrace};
use hari_core::unassisted::replay_unassisted;

fn ev(cycle: u64, payload: ResearchEventPayload) -> ResearchEvent {
    ResearchEvent {
        cycle,
        source: "ix".to_string(),
        payload,
    }
}

#[test]
fn every_claim_assertion_is_accepted_at_face_value() {
    let trace = ResearchTrace {
        dimension: 4,
        events: vec![
            ev(
                1,
                ResearchEventPayload::ExperimentResult {
                    proposition: "p".to_string(),
                    value: HexValue::Doubtful,
                },
            ),
            ev(
                2,
                ResearchEventPayload::GoalUpdate {
                    key: "g".to_string(),
                    description: "d".to_string(),
                    status: None,
                },
            ),
        ],
    };
    let report = replay_unassisted(trace);

    assert!(matches!(
        report.outcomes[0].actions.as_slice(),
        [Action::Accept { .. }]
    ));
    assert!(report.outcomes[1].actions.is_empty());
    assert_eq!(report.final_beliefs.get("p"), Some(&HexValue::Doubtful));
}

#[test]
fn the_unassisted_arm_never_withholds() {
    let trace = ResearchTrace {
        dimension: 4,
        events: vec![
            ev(
                1,
                ResearchEventPayload::BeliefUpdate {
                    proposition: "p".to_string(),
                    value: HexValue::Probable,
                },
            ),
            ev(
                2,
                ResearchEventPayload::Retraction {
                    proposition: "p".to_string(),
                    reason: "withdrawn".to_string(),
                    retracts: None,
                },
            ),
        ],
    };
    let report = replay_unassisted(trace);
    assert!(report
        .outcomes
        .iter()
        .flat_map(|o| &o.actions)
        .all(|a| !matches!(a, Action::Wait)));
}

#[test]
fn state_lines_count_propositions_and_goals() {
    let trace = ResearchTrace {
        dimension: 4,
        events: vec![
            ev(
                1,
                ResearchEventPayload::AgentVote {
                    proposition: "p".to_string(),
                    value: HexValue::True,
                },
            ),
            ev(
                2,
                ResearchEventPayload::GoalUpdate {
                    key: "g".to_string(),
                    description: "ship".to_string(),
                    status: Some(HexValue::Probable),
                },
            ),
            ev(
                3,
                ResearchEventPayload::Supersession {
                    proposition: "q".to_string(),
                    superseded_by: "p".to_string(),
                    reason: "moved".to_string(),
                },
            ),
        ],
    };
    let report = replay_unassisted(trace);
    assert_eq!(report.outcomes[0].state_summary, "[ix-unassisted] 1 propositions, 0 goals");
    assert_eq!(report.outcomes[1].state_summary, "[ix-unassisted] 1 propositions, 1 goals");
    assert_eq!(report.outcomes[2].state_summary, "[ix-unassisted] 2 propositions, 1 goals");
    assert_eq!(
        report.final_state_summary,
        "[ix-unassisted] 2 propositions accepted at face value, 1 goals recorded"
    );
    assert_eq!(report.final_beliefs.get("q"), Some(&HexValue::Unknown));
    let g = report.final_goals.get("g").unwrap();
    assert_eq!((g.description.as_str(), g.status), ("ship", HexValue::Probable));
    assert_eq!((report.metrics.goals_achieved, report.metrics.goals_total), (1, 1));
    assert_eq!(report.metrics.false_rejection_count, 0);
}
