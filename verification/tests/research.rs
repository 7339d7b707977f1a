use hari_core::keymap::KeyMap;
use hari_core::research::{
    action_kind, goal_axis, recommend_for_claim, Action, ActionKind, HexValue, PriorityModel,
    ResearchEvent, ResearchEventPayload, ResearchTrace, RetractionSelector,
};

#[test]
fn test_priority_model_default_is_recency_decay() {
    assert_eq!(PriorityModel::default(), PriorityModel::RecencyDecay);
}

#[test]
fn committed_claims_are_accepted_unknown_investigated_contradictory_escalated() {
    for v in [HexValue::True, HexValue::Probable, HexValue::Doubtful, HexValue::False] {
        assert_eq!(
            recommend_for_claim("p", v),
            vec![Action::Accept {
                proposition: "p".to_string(),
                value: v
            }]
        );
    }
    assert_eq!(
        recommend_for_claim("p", HexValue::Unknown),
        vec![Action::Investigate {
            topic: "p".to_string()
        }]
    );
    assert_eq!(
        recommend_for_claim("p", HexValue::Contradictory),
        vec![Action::Escalate {
            reason: "Research claim 'p' has contradictory evidence".to_string()
        }]
    );
}

#[test]
fn test_goal_axis_returns_btreemap_position() {
    let mut goals: KeyMap<()> = KeyMap::new();
    goals.insert("b".to_string(), ());
    goals.insert("a".to_string(), ());
    goals.insert("c".to_string(), ());
    assert_eq!(goal_axis(&goals, "a", 8), Some(0));
    assert_eq!(goal_axis(&goals, "b", 8), Some(1));
    assert_eq!(goal_axis(&goals, "c", 8), Some(2));
    assert_eq!(goal_axis(&goals, "zz", 8), None);
}

#[test]
fn test_goal_axis_clamps_to_dimension() {
    let mut goals: KeyMap<()> = KeyMap::new();
    for k in ["a", "b", "c", "d"] {
        goals.insert(k.to_string(), ());
    }
    assert_eq!(goal_axis(&goals, "d", 2), Some(1));
    assert_eq!(goal_axis(&goals, "a", 0), None);
}

#[test]
fn touched_propositions_per_payload() {
    let ev = |payload| ResearchEvent {
        cycle: 1,
        source: "s".to_string(),
        payload,
    };
    let sup = ev(ResearchEventPayload::Supersession {
        proposition: "old".to_string(),
        superseded_by: "new".to_string(),
        reason: "r".to_string(),
    });
    assert_eq!(sup.touched_propositions(), vec!["old".to_string(), "new".to_string()]);
    assert_eq!(sup.payload_proposition_owned(), Some("old".to_string()));
    let rel = ev(ResearchEventPayload::RelationDeclaration {
        from: "a".to_string(),
        to: "b".to_string(),
    });
    assert_eq!(rel.touched_propositions(), vec!["a".to_string(), "b".to_string()]);
    assert_eq!(rel.payload_proposition_owned(), None);
    let goal = ev(ResearchEventPayload::GoalUpdate {
        key: "g".to_string(),
        description: "d".to_string(),
        status: None,
    });
    assert!(goal.touched_propositions().is_empty());
}

#[test]
fn retraction_selectors_match_every_present_field() {
    let any = RetractionSelector::new();
    assert!(!any.is_targeted());
    assert!(any.matches("x", 9));
    let by_source = RetractionSelector {
        source: Some("ix-a".to_string()),
        cycle: None,
    };
    assert!(by_source.is_targeted());
    assert!(by_source.matches("ix-a", 3));
    assert!(!by_source.matches("ix-b", 3));
    let both = RetractionSelector {
        source: Some("ix-a".to_string()),
        cycle: Some(3),
    };
    assert!(both.matches("ix-a", 3));
    assert!(!both.matches("ix-a", 4));
}

#[test]
fn action_kinds_have_stable_labels() {
    assert_eq!(action_kind(&Action::Wait).label(), "Wait");
    assert_eq!(action_kind(&Action::SendMessage), ActionKind::SendMessage);
    assert_eq!(ActionKind::UpdateBelief.label(), "UpdateBelief");
    assert_eq!(
        action_kind(&Action::Escalate {
            reason: "r".to_string()
        })
        .label(),
        "Escalate"
    );
    let t = ResearchTrace::from(Vec::new());
    assert_eq!(t.dimension, 4);
}
