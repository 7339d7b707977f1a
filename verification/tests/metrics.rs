use hari_core::divergence::{action_lists_equivalent, diff_outcomes, three_way_divergences};
use hari_core::keymap::KeyMap;
use hari_core::metrics::{
    accept_was_invalidated, compute_metrics, contradiction_recovery_cycles, wait_was_unnecessary,
};
use hari_core::research::{
    Action, HexValue, ResearchEvent, ResearchEventOutcome, ResearchEventPayload,
};

fn outcome(cycle: u64, payload: ResearchEventPayload, actions: Vec<Action>) -> ResearchEventOutcome {
    ResearchEventOutcome {
        event: ResearchEvent {
            cycle,
            source: "ix".to_string(),
            payload,
        },
        actions,
        state_summary: String::new(),
        revisions: Vec::new(),
    }
}

fn belief(p: &str, v: HexValue) -> ResearchEventPayload {
    ResearchEventPayload::BeliefUpdate {
        proposition: p.to_string(),
        value: v,
    }
}

fn retraction(p: &str) -> ResearchEventPayload {
    ResearchEventPayload::Retraction {
        proposition: p.to_string(),
        reason: "withdrawn".to_string(),
        retracts: None,
    }
}

fn accept(p: &str, v: HexValue) -> Action {
    Action::Accept {
        proposition: p.to_string(),
        value: v,
    }
}

fn beliefs(pairs: &[(&str, HexValue)]) -> KeyMap<HexValue> {
    let mut m = KeyMap::new();
    for (k, v) in pairs {
        m.insert(k.to_string(), *v);
    }
    m
}

#[test]
fn an_accept_is_invalidated_by_a_later_retraction_contradiction_or_flip() {
    let outs = vec![
        outcome(1, belief("p", HexValue::Probable), vec![accept("p", HexValue::Probable)]),
        outcome(2, retraction("p"), vec![]),
    ];
    let fb = beliefs(&[("p", HexValue::Unknown), ("q", HexValue::Contradictory), ("r", HexValue::False)]);
    assert!(accept_was_invalidated("p", HexValue::Probable, 1, &outs, &fb));
    // A retraction at or before the accept does not count.
    assert!(!accept_was_invalidated("p", HexValue::Probable, 2, &outs, &fb));
    assert!(accept_was_invalidated("q", HexValue::True, 9, &outs, &fb));
    assert!(accept_was_invalidated("r", HexValue::True, 9, &outs, &fb));
    assert!(!accept_was_invalidated("r", HexValue::Doubtful, 9, &outs, &fb));
    assert!(!accept_was_invalidated("unknown", HexValue::True, 9, &outs, &fb));
}

#[test]
fn a_correction_counts_as_a_withdrawal() {
    let outs = vec![outcome(
        5,
        ResearchEventPayload::Correction {
            proposition: "p".to_string(),
            reason: "fixed".to_string(),
            retracts: hari_core::research::RetractionSelector::new(),
            value: HexValue::Probable,
        },
        vec![],
    )];
    let fb = beliefs(&[("p", HexValue::Probable)]);
    assert!(accept_was_invalidated("p", HexValue::Probable, 4, &outs, &fb));
    assert!(!wait_was_unnecessary("p", 4, &outs, &fb));
    assert!(wait_was_unnecessary("p", 5, &outs, &fb));
}

#[test]
fn a_wait_is_unnecessary_only_when_the_claim_stands() {
    let outs = vec![outcome(1, belief("p", HexValue::Probable), vec![Action::Wait])];
    assert!(wait_was_unnecessary("p", 1, &outs, &beliefs(&[("p", HexValue::True)])));
    assert!(!wait_was_unnecessary("p", 1, &outs, &beliefs(&[("p", HexValue::Contradictory)])));
    assert!(!wait_was_unnecessary("p", 1, &outs, &beliefs(&[])));
}

#[test]
fn counted_metrics_over_a_small_replay() {
    let outs = vec![
        outcome(1, belief("p", HexValue::Probable), vec![accept("p", HexValue::Probable)]),
        outcome(2, belief("q", HexValue::Probable), vec![Action::Wait, Action::Wait]),
        outcome(3, belief("p", HexValue::False), vec![Action::Log("flip".to_string())]),
        outcome(
            4,
            ResearchEventPayload::GoalUpdate {
                key: "g".to_string(),
                description: "d".to_string(),
                status: None,
            },
            vec![Action::Wait],
        ),
        outcome(5, retraction("q"), vec![]),
    ];
    let fb = beliefs(&[("p", HexValue::False), ("q", HexValue::Probable)]);
    let m = compute_metrics(&outs, &fb, &[HexValue::True, HexValue::Unknown, HexValue::Probable]);
    // The accept of p flipped polarity.
    assert_eq!(m.false_acceptance_count, 1);
    // Waits on q were cleared by the later retraction; the goal wait has no claim.
    assert_eq!(m.false_rejection_count, 0);
    assert_eq!((m.goals_achieved, m.goals_total), (2, 3));
    assert_eq!(m.contradiction_recovery_cycles, None);
    let p = m.claim_stability.get("p").unwrap();
    assert_eq!((p.events, p.flips, p.last_value), (2, 1, HexValue::False));
    let q = m.claim_stability.get("q").unwrap();
    assert_eq!((q.events, q.flips, q.last_value), (2, 1, HexValue::Unknown));
    assert_eq!(m.action_counts_by_kind.get("Wait"), Some(&3));
    assert_eq!(m.action_counts_by_kind.get("Accept"), Some(&1));
    assert_eq!(m.action_counts_by_kind.get("Log"), Some(&1));
    assert_eq!(m.action_counts_by_kind.get("Escalate"), None);
    // The per-kind counts add up to the five recommended actions.
    let counts = &m.action_counts_by_kind;
    let total: u32 = (0..counts.len()).map(|i| *counts.value_at(i)).sum();
    assert_eq!(total, 5);
    assert_eq!(counts.len(), 3);
}

#[test]
fn unnecessary_waits_count_every_wait_on_the_event() {
    let outs = vec![outcome(1, belief("q", HexValue::Probable), vec![Action::Wait, Action::Wait])];
    let fb = beliefs(&[("q", HexValue::Probable)]);
    let m = compute_metrics(&outs, &fb, &[]);
    assert_eq!(m.false_rejection_count, 2);
}

#[test]
fn recovery_is_the_shortest_across_propositions() {
    let escalate = |r: &str| Action::Escalate {
        reason: r.to_string(),
    };
    let outs = vec![
        outcome(1, belief("p", HexValue::Contradictory), vec![]),
        outcome(2, belief("q", HexValue::True), vec![escalate("belief is Contradictory")]),
        outcome(3, belief("p", HexValue::True), vec![escalate("still contradictory")]),
        outcome(7, belief("p", HexValue::True), vec![]),
        outcome(4, retraction("q"), vec![escalate("still contradictory")]),
    ];
    // p: 1 -> 7 (6 cycles); q: 2 -> 4 by retraction (2 cycles).
    assert_eq!(contradiction_recovery_cycles(&outs), Some(2));
    assert_eq!(contradiction_recovery_cycles(&outs[..3]), None);
}

#[test]
fn action_lists_compare_by_kind_only() {
    assert!(action_lists_equivalent(
        &[Action::Log("a".to_string()), accept("p", HexValue::True)],
        &[Action::Log("b".to_string()), accept("q", HexValue::False)],
    ));
    assert!(!action_lists_equivalent(&[Action::Wait], &[Action::Wait, Action::Wait]));
    assert!(!action_lists_equivalent(&[Action::Wait], &[accept("p", HexValue::True)]));
}

#[test]
fn divergences_list_the_indices_where_kinds_differ() {
    let a = vec![
        outcome(1, belief("p", HexValue::True), vec![accept("p", HexValue::True)]),
        outcome(2, belief("q", HexValue::True), vec![Action::Wait]),
    ];
    let b = vec![
        outcome(1, belief("p", HexValue::True), vec![accept("p", HexValue::True)]),
        outcome(2, belief("q", HexValue::True), vec![accept("q", HexValue::True)]),
        outcome(3, belief("r", HexValue::True), vec![]),
    ];
    let d = diff_outcomes(&a, &b);
    assert_eq!(d.len(), 1);
    assert_eq!(d[0].event_index, 1);
    assert_eq!(d[0].baseline_actions, vec![Action::Wait]);
    assert_eq!(d[0].experimental_actions, vec![accept("q", HexValue::True)]);
}

#[test]
fn three_way_divergences_ignore_logs() {
    let d = vec![outcome(1, belief("p", HexValue::True), vec![Action::Log("x".to_string()), accept("p", HexValue::True)])];
    let l = vec![outcome(1, belief("p", HexValue::True), vec![accept("p", HexValue::True)])];
    let s = vec![outcome(1, belief("p", HexValue::True), vec![Action::Wait])];
    let out = three_way_divergences(&d, &l, &s);
    assert_eq!(out.len(), 1);
    assert_eq!(out[0].event_index, 0);
    assert_eq!(out[0].recency_decay, vec!["Accept".to_string()]);
    assert_eq!(out[0].lie, vec!["Accept".to_string()]);
    assert_eq!(out[0].subjective_logic, vec!["Wait".to_string()]);
    assert!(three_way_divergences(&d, &l, &l).is_empty());
}

fn belief_update(cycle: u64, prop: &str, value: HexValue) -> ResearchEventOutcome {
    outcome(cycle, belief(prop, value), vec![Action::Wait])
}

/// A replay with abstention forced on: every event's actions are a single
/// `Wait`.
fn always_waiting(events: Vec<ResearchEventOutcome>) -> Vec<ResearchEventOutcome> {
    events
}

#[test]
fn wait_on_a_claim_that_goes_on_to_stand_is_a_false_rejection() {
    let outs = always_waiting(vec![
        belief_update(1, "benchmark-x-is-reliable", HexValue::Probable),
        belief_update(2, "benchmark-x-is-reliable", HexValue::True),
    ]);
    let fb = beliefs(&[("benchmark-x-is-reliable", HexValue::True)]);
    let m = compute_metrics(&outs, &fb, &[]);
    assert_eq!(m.false_rejection_count, 2);
    assert_eq!(m.false_acceptance_count, 0);
}

#[test]
fn wait_on_a_claim_that_ends_contradictory_is_not_a_false_rejection() {
    let outs = always_waiting(vec![
        belief_update(1, "benchmark-x-is-reliable", HexValue::True),
        belief_update(2, "benchmark-x-is-reliable", HexValue::False),
    ]);
    let fb = beliefs(&[("benchmark-x-is-reliable", HexValue::Contradictory)]);
    let m = compute_metrics(&outs, &fb, &[]);
    assert_eq!(m.false_rejection_count, 0);
}

#[test]
fn wait_cleared_by_a_later_retraction_is_not_a_false_rejection() {
    let outs = always_waiting(vec![
        belief_update(1, "benchmark-x-is-reliable", HexValue::True),
        outcome(2, retraction("benchmark-x-is-reliable"), vec![Action::Wait]),
        belief_update(3, "benchmark-x-is-reliable", HexValue::True),
    ]);
    let fb = beliefs(&[("benchmark-x-is-reliable", HexValue::True)]);
    assert!(
        wait_was_unnecessary("benchmark-x-is-reliable", 3, &outs, &fb),
        "a wait after the retraction has nothing excusing it"
    );
    assert!(
        !wait_was_unnecessary("benchmark-x-is-reliable", 1, &outs, &fb),
        "the retraction at cycle 2 excuses the wait at cycle 1"
    );
}

#[test]
fn a_wait_with_no_proposition_to_attribute_is_never_a_false_rejection() {
    let outs = always_waiting(vec![outcome(
        1,
        ResearchEventPayload::GoalUpdate {
            key: "characterise-benchmark-x".to_string(),
            description: "characterise benchmark x".to_string(),
            status: Some(HexValue::Probable),
        },
        vec![Action::Wait],
    )]);
    let m = compute_metrics(&outs, &beliefs(&[]), &[HexValue::Probable]);
    assert!(m.action_counts_by_kind.get("Wait").is_some());
    assert_eq!(m.false_rejection_count, 0);
}
