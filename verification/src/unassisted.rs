//! The unassisted null baseline: recorded behaviour with no policy applied.
//!
//! With no policy layer, what remains is pass-through: every report of a
//! claim is taken at face value and accepted, and nothing else is decided.
//! This is the strongest honest reading of "no policy" — a baseline the
//! substrate has to beat to show that it helps at all. The arm never emits a
//! `Wait`, so it can never be charged a false rejection.

use vstd::prelude::*;
use crate::keymap::KeyMap;
use crate::research::{Action, ActionView, HexValue, ResearchEvent, ResearchEventOutcome, ResearchEventPayload, ResearchTrace};
use crate::metrics::{ReplayCounts, compute_metrics, action_total, first_contradictory, recovered_at,
    is_min_recovery, false_accept_total, false_rejection_total, achieved_count};
use crate::forecast::{decimal, decimal_string};
use crate::text::{owned, push_all};
use crate::paired_eval::{has_wait, waited_claims};

verus! {

/// A goal as recorded from a goal update.
#[derive(Debug, Clone, PartialEq, Eq)]
pub struct Goal {
    pub description: String,
    /// `Unknown` when the update named no status.
    pub status: HexValue,
}

/// The claim a payload asserts at face value: a claim, an experiment, a vote
/// or a correction, with the value it asserts.
pub open spec fn face_value(p: ResearchEventPayload) -> Option<(Seq<char>, HexValue)> {
    match p {
        ResearchEventPayload::BeliefUpdate { proposition, value } => Some((proposition@, value)),
        ResearchEventPayload::ExperimentResult { proposition, value } => Some((proposition@, value)),
        ResearchEventPayload::AgentVote { proposition, value } => Some((proposition@, value)),
        ResearchEventPayload::Correction { proposition, value, .. } => Some((proposition@, value)),
        _ => None,
    }
}

/// The pass-through response: one `Accept` of the asserted claim at its
/// asserted value, or nothing.
pub open spec fn pass_through(p: ResearchEventPayload, actions: Seq<Action>) -> bool {
    match face_value(p) {
        Some((q, v)) => actions.len() == 1 && (actions[0] matches Action::Accept { proposition, value } && proposition@
            == q && value == v),
        None => actions.len() == 0,
    }
}

/// One event's effect on the beliefs: a face-value claim sets its value, a
/// retraction or a supersession resets it to `Unknown`.
pub open spec fn belief_step(m: Map<Seq<char>, HexValue>, p: ResearchEventPayload) -> Map<Seq<char>, HexValue> {
    match p {
        ResearchEventPayload::BeliefUpdate { proposition, value } => m.insert(proposition@, value),
        ResearchEventPayload::ExperimentResult { proposition, value } => m.insert(proposition@, value),
        ResearchEventPayload::AgentVote { proposition, value } => m.insert(proposition@, value),
        ResearchEventPayload::Correction { proposition, value, .. } => m.insert(proposition@, value),
        ResearchEventPayload::Retraction { proposition, .. } => m.insert(proposition@, HexValue::Unknown),
        ResearchEventPayload::Supersession { proposition, .. } => m.insert(proposition@, HexValue::Unknown),
        _ => m,
    }
}

/// One event's effect on the goals: a goal update records its description
/// and its status (`Unknown` when none), replacing any earlier record.
pub open spec fn goal_step(
    m: Map<Seq<char>, (Seq<char>, HexValue)>,
    p: ResearchEventPayload,
) -> Map<Seq<char>, (Seq<char>, HexValue)> {
    match p {
        ResearchEventPayload::GoalUpdate { key, description, status } => m.insert(
            key@,
            (
                description@,
                match status {
                    Some(s) => s,
                    None => HexValue::Unknown,
                },
            ),
        ),
        _ => m,
    }
}

/// Beliefs after the events.
pub open spec fn unassisted_beliefs(events: Seq<ResearchEvent>) -> Map<Seq<char>, HexValue>
    decreases events.len(),
{
    if events.len() == 0 {
        Map::empty()
    } else {
        belief_step(unassisted_beliefs(events.drop_last()), events.last().payload)
    }
}

/// Goals after the events, each as its description and status.
pub open spec fn unassisted_goals(events: Seq<ResearchEvent>) -> Map<Seq<char>, (Seq<char>, HexValue)>
    decreases events.len(),
{
    if events.len() == 0 {
        Map::empty()
    } else {
        goal_step(unassisted_goals(events.drop_last()), events.last().payload)
    }
}

/// A goal map as plain values.
pub open spec fn goal_views(m: Map<Seq<char>, Goal>) -> Map<Seq<char>, (Seq<char>, HexValue)> {
    m.map_values(|g: Goal| (g.description@, g.status))
}

/// The state line written after each event.
pub open spec fn unassisted_summary(beliefs: nat, goals: nat) -> Seq<char> {
    "[ix-unassisted] "@ + decimal(beliefs) + " propositions, "@ + decimal(goals) + " goals"@
}

/// The line written at the end of the replay.
pub open spec fn unassisted_final_summary(beliefs: nat, goals: nat) -> Seq<char> {
    "[ix-unassisted] "@ + decimal(beliefs) + " propositions accepted at face value, "@ + decimal(goals)
        + " goals recorded"@
}

/// A replay under no policy.
#[derive(Debug, Clone, PartialEq, Eq)]
pub struct UnassistedReplay {
    /// One outcome per event, in order.
    pub outcomes: Vec<ResearchEventOutcome>,
    /// Every claim's value as last asserted.
    pub final_beliefs: KeyMap<HexValue>,
    /// Every goal as last recorded.
    pub final_goals: KeyMap<Goal>,
    pub final_state_summary: String,
    /// The counted metrics over the outcomes.
    pub metrics: ReplayCounts,
}

fn summary_line(beliefs: usize, goals: usize, final_line: bool) -> (s: String)
    ensures
        s@ == if final_line {
            unassisted_final_summary(beliefs as nat, goals as nat)
        } else {
            unassisted_summary(beliefs as nat, goals as nat)
        },
{
    let mut s = owned("[ix-unassisted] ");
    let b = decimal_string(beliefs as u64);
    push_all(&mut s, b.as_str());
    if final_line {
        push_all(&mut s, " propositions accepted at face value, ");
    } else {
        push_all(&mut s, " propositions, ");
    }
    let g = decimal_string(goals as u64);
    push_all(&mut s, g.as_str());
    if final_line {
        push_all(&mut s, " goals recorded");
    } else {
        push_all(&mut s, " goals");
    }
    s
}


/// One event's pass-through response, recording what it asserts.
fn unassisted_actions(
    event: &ResearchEvent,
    beliefs: &mut KeyMap<HexValue>,
    goals: &mut KeyMap<Goal>,
) -> (actions: Vec<Action>)
    requires
        old(beliefs).wf(),
        old(goals).wf(),
    ensures
        final(beliefs).wf(),
        final(goals).wf(),
        pass_through(event.payload, actions@),
        final(beliefs).map_view() == belief_step(old(beliefs).map_view(), event.payload),
        goal_views(final(goals).map_view()) == goal_step(goal_views(old(goals).map_view()), event.payload),
{
    match &event.payload {
        ResearchEventPayload::BeliefUpdate { proposition, value }
        | ResearchEventPayload::ExperimentResult { proposition, value }
        | ResearchEventPayload::AgentVote { proposition, value } => {
            beliefs.insert(proposition.clone(), *value);
            vec![Action::Accept { proposition: proposition.clone(), value: *value }]
        },
        ResearchEventPayload::Correction { proposition, value, .. } => {
            beliefs.insert(proposition.clone(), *value);
            vec![Action::Accept { proposition: proposition.clone(), value: *value }]
        },
        ResearchEventPayload::Retraction { proposition, .. } => {
            beliefs.insert(proposition.clone(), HexValue::Unknown);
            Vec::new()
        },
        ResearchEventPayload::Supersession { proposition, .. } => {
            beliefs.insert(proposition.clone(), HexValue::Unknown);
            Vec::new()
        },
        ResearchEventPayload::GoalUpdate { key, description, status } => {
            let st = match status {
                Some(s) => *s,
                None => HexValue::Unknown,
            };
            let ghost before = goals.map_view();
            let g = Goal { description: description.clone(), status: st };
            goals.insert(key.clone(), g);
            proof {
                assert(goal_views(goals.map_view()) =~= goal_views(before).insert(key@, (description@, st)));
            }
            Vec::new()
        },
        _ => Vec::new(),
    }
}


/// Replay a trace with no policy applied: accept every claim assertion at
/// face value, decide nothing else. Each outcome carries its event, the
/// pass-through actions, and a state line counting the propositions and
/// goals recorded so far; the replay ends with the final beliefs and goals
/// and the counted metrics over the outcomes.
pub fn replay_unassisted(trace: ResearchTrace) -> (r: UnassistedReplay)
    requires
        trace.events@.len() <= u32::MAX,
    ensures
        r.outcomes@.len() == trace.events@.len(),
        forall|i: int| 0 <= i < r.outcomes@.len() ==> {
            let o = #[trigger] r.outcomes@[i];
            &&& o.event == trace.events@[i]
            &&& pass_through(o.event.payload, o.actions@)
            &&& o.revisions@.len() == 0
            &&& o.state_summary@ == unassisted_summary(
                unassisted_beliefs(trace.events@.take(i + 1)).dom().len(),
                unassisted_goals(trace.events@.take(i + 1)).dom().len(),
            )
        },
        r.final_beliefs.wf(),
        r.final_beliefs.map_view() == unassisted_beliefs(trace.events@),
        r.final_goals.wf(),
        goal_views(r.final_goals.map_view()) == unassisted_goals(trace.events@),
        r.final_state_summary@ == unassisted_final_summary(
            unassisted_beliefs(trace.events@).dom().len(),
            unassisted_goals(trace.events@).dom().len(),
        ),
        is_min_recovery(
            r.metrics.contradiction_recovery_cycles,
            first_contradictory(r.outcomes@),
            recovered_at(r.outcomes@, first_contradictory(r.outcomes@)),
        ),
        r.metrics.false_acceptance_count == false_accept_total(r.outcomes@, r.outcomes@, r.final_beliefs.map_view()),
        r.metrics.false_rejection_count == false_rejection_total(r.outcomes@, r.outcomes@, r.final_beliefs.map_view()),
        r.metrics.goals_total == unassisted_goals(trace.events@).dom().len(),
        r.metrics.goals_achieved == achieved_count(
            r.final_goals.entry_seq().map_values(|e: (Seq<char>, Goal)| e.1.status),
        ),
{
    let events = trace.events;
    let ghost evs = events@;
    let mut beliefs: KeyMap<HexValue> = KeyMap::new();
    let mut goals: KeyMap<Goal> = KeyMap::new();
    let mut outcomes: Vec<ResearchEventOutcome> = Vec::new();
    proof {
        assert(goal_views(goals.map_view()) =~= Map::empty());
    }
    for event in it: events
        invariant
            evs.len() <= u32::MAX,
            it.seq() == evs,
            beliefs.wf(),
            goals.wf(),
            outcomes@.len() == it.index(),
            beliefs.map_view() == unassisted_beliefs(evs.take(it.index() as int)),
            goal_views(goals.map_view()) == unassisted_goals(evs.take(it.index() as int)),
            forall|i: int| 0 <= i < outcomes@.len() ==> {
                let o = #[trigger] outcomes@[i];
                &&& o.event == evs[i]
                &&& pass_through(o.event.payload, o.actions@)
                &&& o.revisions@.len() == 0
                &&& o.actions@.len() <= 1
                &&& o.state_summary@ == unassisted_summary(
                    unassisted_beliefs(evs.take(i + 1)).dom().len(),
                    unassisted_goals(evs.take(i + 1)).dom().len(),
                )
            },
    {
        let ghost i = it.index();
        proof {
            assert(evs.take(i + 1).drop_last() =~= evs.take(i as int));
        }
        let actions = unassisted_actions(&event, &mut beliefs, &mut goals);
        let nb = beliefs.len();
        let ng = goals.len();
        proof {
            assert(goal_views(goals.map_view()).dom() =~= goals.map_view().dom());
        }
        let state_summary = summary_line(nb, ng, false);
        outcomes.push(ResearchEventOutcome { event, actions, state_summary, revisions: Vec::new() });
    }
    proof {
        assert(evs.take(evs.len() as int) =~= evs);
        assert(goal_views(goals.map_view()).dom() =~= goals.map_view().dom());
        assert(action_total(outcomes@) <= outcomes@.len()) by {
            lemma_action_total_bound(outcomes@);
        }
    }
    let final_state_summary = summary_line(beliefs.len(), goals.len(), true);
    let statuses = goal_statuses(&goals);
    let metrics = compute_metrics(outcomes.as_slice(), &beliefs, statuses.as_slice());
    UnassistedReplay { outcomes, final_beliefs: beliefs, final_goals: goals, final_state_summary, metrics }
}

proof fn lemma_action_total_bound(outs: Seq<ResearchEventOutcome>)
    requires
        forall|i: int| 0 <= i < outs.len() ==> (#[trigger] outs[i]).actions@.len() <= 1,
    ensures
        action_total(outs) <= outs.len(),
    decreases outs.len(),
{
    if outs.len() > 0 {
        lemma_action_total_bound(outs.drop_last());
    }
}

/// Every recorded goal's status, in key order.
fn goal_statuses(goals: &KeyMap<Goal>) -> (v: Vec<HexValue>)
    requires
        goals.wf(),
    ensures
        v@.len() == goals.map_view().dom().len(),
        v@ == goals.entry_seq().map_values(|e: (Seq<char>, Goal)| e.1.status),
{
    let n = goals.len();
    let mut v: Vec<HexValue> = Vec::new();
    let mut i: usize = 0;
    while i < n
        invariant
            n == goals.entry_seq().len(),
            i <= n,
            v@ == goals.entry_seq().map_values(|e: (Seq<char>, Goal)| e.1.status).take(i as int),
        decreases n - i,
    {
        v.push(goals.value_at(i).status);
        proof {
            assert(goals.entry_seq().map_values(|e: (Seq<char>, Goal)| e.1.status).take(i + 1) =~= goals.entry_seq().map_values(
                |e: (Seq<char>, Goal)| e.1.status,
            ).take(i as int).push(goals.entry_seq()[i as int].1.status));
        }
        i = i + 1;
    }
    proof {
        assert(goals.entry_seq().map_values(|e: (Seq<char>, Goal)| e.1.status).take(n as int) =~= goals.entry_seq().map_values(
            |e: (Seq<char>, Goal)| e.1.status,
        ));
    }
    v
}


/// The unassisted arm never withholds: no outcome of a pass-through replay
/// holds a `Wait`, so it has no claim-wait a false rejection could be
/// charged on.
pub proof fn law_the_unassisted_arm_never_withholds(outcomes: Seq<ResearchEventOutcome>)
    requires
        forall|i: int| 0 <= i < outcomes.len() ==> pass_through((#[trigger] outcomes[i]).event.payload, outcomes[i].actions@),
    ensures
        forall|i: int| 0 <= i < outcomes.len() ==> !has_wait((#[trigger] outcomes[i]).actions@),
        waited_claims(outcomes).len() == 0,
    decreases outcomes.len(),
{
    assert forall|i: int| 0 <= i < outcomes.len() implies !has_wait((#[trigger] outcomes[i]).actions@) by {
        let a = outcomes[i].actions@;
        if has_wait(a) {
            let j = choose|j: int| 0 <= j < a.len() && (#[trigger] a[j]) is Wait;
            assert(j == 0);
        }
    }
    if outcomes.len() > 0 {
        let t = outcomes.drop_last();
        assert forall|i: int| 0 <= i < t.len() implies pass_through((#[trigger] t[i]).event.payload, t[i].actions@) by {
            assert(t[i] == outcomes[i]);
        }
        law_the_unassisted_arm_never_withholds(t);
        assert(!has_wait(outcomes[outcomes.len() - 1].actions@));
    }
}

/// The list is exactly one `Accept` of `q` at `v`.
pub open spec fn accepts_only(actions: Seq<Action>, q: Seq<char>, v: HexValue) -> bool {
    actions.len() == 1 && actions[0]@ == ActionView::Accept { proposition: q, value: v }
}

/// Every claim is taken at face value. A belief update, an experiment
/// result, a vote or a correction of `q` to `v` is answered with exactly one
/// `Accept` of `q` at `v`, and right after it the arm believes `q` is `v`. A
/// retraction or supersession of `q` draws no action and leaves `q`
/// `Unknown`; a goal update draws no action and records the goal with its
/// description and status (`Unknown` when it names none); any other event
/// draws no action and leaves the beliefs as they were.
pub proof fn law_claims_are_accepted_at_face_value(
    events: Seq<ResearchEvent>,
    outcomes: Seq<ResearchEventOutcome>,
    i: int,
)
    requires
        outcomes.len() == events.len(),
        0 <= i < events.len(),
        forall|k: int| 0 <= k < outcomes.len() ==> (#[trigger] outcomes[k]).event == events[k] && pass_through(
            outcomes[k].event.payload,
            outcomes[k].actions@,
        ),
    ensures
        ({
            let acts = outcomes[i].actions@;
            let after = unassisted_beliefs(events.take(i + 1));
            match events[i].payload {
                ResearchEventPayload::BeliefUpdate { proposition, value } => accepts_only(acts, proposition@, value)
                    && after.contains_key(proposition@) && after[proposition@] == value,
                ResearchEventPayload::ExperimentResult { proposition, value } => accepts_only(
                    acts,
                    proposition@,
                    value,
                ) && after.contains_key(proposition@) && after[proposition@] == value,
                ResearchEventPayload::AgentVote { proposition, value } => accepts_only(acts, proposition@, value)
                    && after.contains_key(proposition@) && after[proposition@] == value,
                ResearchEventPayload::Correction { proposition, value, .. } => accepts_only(
                    acts,
                    proposition@,
                    value,
                ) && after.contains_key(proposition@) && after[proposition@] == value,
                ResearchEventPayload::Retraction { proposition, .. } => acts.len() == 0 && after.contains_key(
                    proposition@,
                ) && after[proposition@] == HexValue::Unknown,
                ResearchEventPayload::Supersession { proposition, .. } => acts.len() == 0 && after.contains_key(
                    proposition@,
                ) && after[proposition@] == HexValue::Unknown,
                ResearchEventPayload::GoalUpdate { key, description, status } => acts.len() == 0 && after
                    == unassisted_beliefs(events.take(i)) && unassisted_goals(events.take(i + 1)).contains_key(
                    key@,
                ) && unassisted_goals(events.take(i + 1))[key@] == (
                    description@,
                    match status {
                        Some(st) => st,
                        None => HexValue::Unknown,
                    },
                ),
                _ => acts.len() == 0 && after == unassisted_beliefs(events.take(i)),
            }
        }),
{
    assert(events.take(i + 1).drop_last() =~= events.take(i));
    assert(events.take(i + 1).last() == events[i]);
    assert(outcomes[i].event == events[i]);
}

} // verus!
