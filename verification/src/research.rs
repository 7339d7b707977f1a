//! The research-event boundary: the claims an autoresearch system reports,
//! the actions recommended in response, and the per-event outcomes a replay
//! produces. These are the plain values every scorer and metric reads.

use vstd::prelude::*;
use crate::text::{str_eq, owned, push_all};
use crate::keymap::KeyMap;

verus! {

/// A hexavalent belief value: the six-valued logic claims are asserted in,
/// which keeps contradiction distinct from ignorance.
#[derive(Debug, Clone, Copy, PartialEq, Eq, Structural)]
pub enum HexValue {
    True,
    Probable,
    Unknown,
    Doubtful,
    False,
    Contradictory,
}

impl HexValue {
    /// `True` or `Probable`: the claim is standing.
    pub open spec fn affirms(self) -> bool {
        self == HexValue::True || self == HexValue::Probable
    }

    /// `Doubtful` or `False`: the claim is rejected.
    pub open spec fn denies(self) -> bool {
        self == HexValue::Doubtful || self == HexValue::False
    }
}

/// Strategy for prioritising candidate actions. `RecencyDecay` is the
/// default.
#[derive(Debug, Clone, Copy, PartialEq, Eq, Structural)]
pub enum PriorityModel {
    /// Every action priority 1.0, original order.
    Flat,
    /// Priority decays with the age of the perception.
    RecencyDecay,
    /// Priority modulated by attention in the cognitive algebra.
    Lie,
    /// Subjective Logic opinion fusion.
    SubjectiveLogic,
}

impl Default for PriorityModel {
    fn default() -> (r: Self)
        ensures
            r == PriorityModel::RecencyDecay,
    {
        PriorityModel::RecencyDecay
    }
}

/// An action recommended in response to an event, as the scorers read it:
/// its kind and the claim it names. (An escalation's confidence and a swarm
/// message's body are not read by any scorer and are not carried.)
#[derive(Debug, Clone, PartialEq, Eq)]
pub enum Action {
    /// Update a belief in the network.
    UpdateBelief { proposition: String, value: HexValue },
    /// Send a message to another agent in the swarm.
    SendMessage,
    /// Request more information about a topic.
    Investigate { topic: String },
    /// Escalate a decision to a higher authority.
    Escalate { reason: String },
    /// Retry or rerun an investigation path.
    Retry { topic: String },
    /// Accept a research claim at its current value.
    Accept { proposition: String, value: HexValue },
    /// Decided to wait.
    Wait,
    /// An observation logged for auditability.
    Log(String),
}

/// An action as plain values.
pub enum ActionView {
    UpdateBelief { proposition: Seq<char>, value: HexValue },
    SendMessage,
    Investigate { topic: Seq<char> },
    Escalate { reason: Seq<char> },
    Retry { topic: Seq<char> },
    Accept { proposition: Seq<char>, value: HexValue },
    Wait,
    Log(Seq<char>),
}

impl View for Action {
    type V = ActionView;

    open spec fn view(&self) -> ActionView {
        match self {
            Action::UpdateBelief { proposition, value } => ActionView::UpdateBelief {
                proposition: proposition@,
                value: *value,
            },
            Action::SendMessage => ActionView::SendMessage,
            Action::Investigate { topic } => ActionView::Investigate { topic: topic@ },
            Action::Escalate { reason } => ActionView::Escalate { reason: reason@ },
            Action::Retry { topic } => ActionView::Retry { topic: topic@ },
            Action::Accept { proposition, value } => ActionView::Accept {
                proposition: proposition@,
                value: *value,
            },
            Action::Wait => ActionView::Wait,
            Action::Log(s) => ActionView::Log(s@),
        }
    }
}

/// A copy of an action.
pub fn clone_action(a: &Action) -> (b: Action)
    ensures
        b@ == a@,
        kind_of(b) == kind_of(*a),
{
    match a {
        Action::UpdateBelief { proposition, value } => Action::UpdateBelief {
            proposition: proposition.clone(),
            value: *value,
        },
        Action::SendMessage => Action::SendMessage,
        Action::Investigate { topic } => Action::Investigate { topic: topic.clone() },
        Action::Escalate { reason } => Action::Escalate { reason: reason.clone() },
        Action::Retry { topic } => Action::Retry { topic: topic.clone() },
        Action::Accept { proposition, value } => Action::Accept {
            proposition: proposition.clone(),
            value: *value,
        },
        Action::Wait => Action::Wait,
        Action::Log(s) => Action::Log(s.clone()),
    }
}

/// The views of a list of actions.
pub open spec fn action_views(v: Seq<Action>) -> Seq<ActionView> {
    v.map_values(|a: Action| a@)
}

/// A copy of a list of actions.
pub fn clone_actions(v: &Vec<Action>) -> (w: Vec<Action>)
    ensures
        action_views(w@) == action_views(v@),
{
    let mut w: Vec<Action> = Vec::new();
    let mut i: usize = 0;
    while i < v.len()
        invariant
            i <= v@.len(),
            action_views(w@) == action_views(v@).take(i as int),
        decreases v@.len() - i,
    {
        let a = clone_action(&v[i]);
        let ghost before = w@;
        w.push(a);
        proof {
            assert(action_views(w@) =~= action_views(before).push(a@));
            assert(action_views(v@).take(i + 1) =~= action_views(v@).take(i as int).push(v@[i as int]@));
        }
        i = i + 1;
    }
    proof {
        assert(action_views(v@).take(v@.len() as int) =~= action_views(v@));
    }
    w
}

/// The stable label of each action variant.
#[derive(Debug, Clone, Copy, PartialEq, Eq, Structural)]
pub enum ActionKind {
    UpdateBelief,
    SendMessage,
    Investigate,
    Escalate,
    Retry,
    Accept,
    Wait,
    Log,
}

pub open spec fn kind_of(a: Action) -> ActionKind {
    match a {
        Action::UpdateBelief { .. } => ActionKind::UpdateBelief,
        Action::SendMessage => ActionKind::SendMessage,
        Action::Investigate { .. } => ActionKind::Investigate,
        Action::Escalate { .. } => ActionKind::Escalate,
        Action::Retry { .. } => ActionKind::Retry,
        Action::Accept { .. } => ActionKind::Accept,
        Action::Wait => ActionKind::Wait,
        Action::Log(_) => ActionKind::Log,
    }
}

/// The kind of an action (its variant, without the data).
pub fn action_kind(action: &Action) -> (k: ActionKind)
    ensures
        k == kind_of(*action),
{
    match action {
        Action::UpdateBelief { .. } => ActionKind::UpdateBelief,
        Action::SendMessage => ActionKind::SendMessage,
        Action::Investigate { .. } => ActionKind::Investigate,
        Action::Escalate { .. } => ActionKind::Escalate,
        Action::Retry { .. } => ActionKind::Retry,
        Action::Accept { .. } => ActionKind::Accept,
        Action::Wait => ActionKind::Wait,
        Action::Log(_) => ActionKind::Log,
    }
}

/// The variant's name.
pub open spec fn kind_label(k: ActionKind) -> Seq<char> {
    match k {
        ActionKind::UpdateBelief => "UpdateBelief"@,
        ActionKind::SendMessage => "SendMessage"@,
        ActionKind::Investigate => "Investigate"@,
        ActionKind::Escalate => "Escalate"@,
        ActionKind::Retry => "Retry"@,
        ActionKind::Accept => "Accept"@,
        ActionKind::Wait => "Wait"@,
        ActionKind::Log => "Log"@,
    }
}

/// Distinct kinds have distinct names.
pub proof fn lemma_kind_label_injective(a: ActionKind, b: ActionKind)
    ensures
        kind_label(a) == kind_label(b) ==> a == b,
{
    reveal_strlit("UpdateBelief");
    reveal_strlit("SendMessage");
    reveal_strlit("Investigate");
    reveal_strlit("Escalate");
    reveal_strlit("Retry");
    reveal_strlit("Accept");
    reveal_strlit("Wait");
    reveal_strlit("Log");
    if kind_label(a) == kind_label(b) && a != b {
        assert(kind_label(a).len() == kind_label(b).len());
        assert(kind_label(a)[0] == kind_label(b)[0]);
        assert(kind_label(a)[1] == kind_label(b)[1]);
    }
}

impl ActionKind {
    /// The variant's name, e.g. `"Accept"`.
    pub fn label(&self) -> (s: &'static str)
        ensures
            s@ == kind_label(*self),
    {
        match self {
            ActionKind::UpdateBelief => "UpdateBelief",
            ActionKind::SendMessage => "SendMessage",
            ActionKind::Investigate => "Investigate",
            ActionKind::Escalate => "Escalate",
            ActionKind::Retry => "Retry",
            ActionKind::Accept => "Accept",
            ActionKind::Wait => "Wait",
            ActionKind::Log => "Log",
        }
    }
}

/// Names which prior evidence a retraction withdraws. Evidence is addressed
/// by `source` and/or `cycle`; an entry matches when every present field
/// matches, and an empty selector matches all prior evidence.
#[derive(Debug, Clone, PartialEq, Eq)]
pub struct RetractionSelector {
    pub source: Option<String>,
    pub cycle: Option<u64>,
}

impl RetractionSelector {
    /// An empty selector.
    pub fn new() -> (r: Self)
        ensures
            r.source is None,
            r.cycle is None,
    {
        RetractionSelector { source: None, cycle: None }
    }

    /// Whether this selector names specific evidence (has a constraint).
    pub fn is_targeted(&self) -> (r: bool)
        ensures
            r == (self.source is Some || self.cycle is Some),
    {
        self.source.is_some() || self.cycle.is_some()
    }

    /// Whether evidence from `source` at `cycle` is matched: every present
    /// field must match, absent fields are wildcards.
    pub fn matches(&self, source: &str, cycle: u64) -> (r: bool)
        ensures
            r == ((self.source is None || self.source->0@ == source@) && (self.cycle is None
                || self.cycle->0 == cycle)),
    {
        let source_ok = match &self.source {
            None => true,
            Some(s) => str_eq(s.as_str(), source),
        };
        let cycle_ok = match self.cycle {
            None => true,
            Some(c) => c == cycle,
        };
        source_ok && cycle_ok
    }
}

/// A typed research observation. (Free-form evidence metadata, a relation's
/// kind and a goal's numeric priority are not read by the library's logic and
/// are not carried.)
#[derive(Debug, Clone, PartialEq, Eq)]
pub enum ResearchEventPayload {
    /// Direct claim update from an agent or tool.
    BeliefUpdate { proposition: String, value: HexValue },
    /// Result from an experiment or benchmark run.
    ExperimentResult { proposition: String, value: HexValue },
    /// Vote from an agent participating in research consensus.
    AgentVote { proposition: String, value: HexValue },
    /// A previous claim or result was withdrawn.
    Retraction { proposition: String, reason: String, retracts: Option<RetractionSelector> },
    /// Retire a whole claim in favour of a successor claim.
    Supersession { proposition: String, superseded_by: String, reason: String },
    /// Retract prior evidence and replace it with a corrected value.
    Correction {
        proposition: String,
        reason: String,
        retracts: RetractionSelector,
        value: HexValue,
    },
    /// Withdraw a previously declared relation edge.
    RelationWithdrawal { from: String, to: String, reason: String },
    /// Update or create a goal.
    GoalUpdate { key: String, description: String, status: Option<HexValue> },
    /// Declare a logical relation between two propositions.
    RelationDeclaration { from: String, to: String },
}

/// A research event from the autoresearch system.
#[derive(Debug, Clone, PartialEq, Eq)]
pub struct ResearchEvent {
    /// Timestamp or replay cycle supplied by the external system.
    pub cycle: u64,
    /// Source agent, runner, benchmark, or system that emitted the event.
    pub source: String,
    pub payload: ResearchEventPayload,
}

/// The single primary proposition of a payload, if it has one.
pub open spec fn primary_proposition(p: ResearchEventPayload) -> Option<Seq<char>> {
    match p {
        ResearchEventPayload::BeliefUpdate { proposition, .. } => Some(proposition@),
        ResearchEventPayload::ExperimentResult { proposition, .. } => Some(proposition@),
        ResearchEventPayload::AgentVote { proposition, .. } => Some(proposition@),
        ResearchEventPayload::Retraction { proposition, .. } => Some(proposition@),
        ResearchEventPayload::Supersession { proposition, .. } => Some(proposition@),
        ResearchEventPayload::Correction { proposition, .. } => Some(proposition@),
        _ => None,
    }
}

/// Every proposition a payload touches, in declaration order.
pub open spec fn touched(p: ResearchEventPayload) -> Seq<Seq<char>> {
    match p {
        ResearchEventPayload::BeliefUpdate { proposition, .. } => seq![proposition@],
        ResearchEventPayload::ExperimentResult { proposition, .. } => seq![proposition@],
        ResearchEventPayload::AgentVote { proposition, .. } => seq![proposition@],
        ResearchEventPayload::Retraction { proposition, .. } => seq![proposition@],
        ResearchEventPayload::Correction { proposition, .. } => seq![proposition@],
        ResearchEventPayload::Supersession { proposition, superseded_by, .. } => seq![
            proposition@,
            superseded_by@,
        ],
        ResearchEventPayload::RelationDeclaration { from, to } => seq![from@, to@],
        ResearchEventPayload::RelationWithdrawal { from, to, .. } => seq![from@, to@],
        ResearchEventPayload::GoalUpdate { .. } => Seq::empty(),
    }
}

/// The value a belief-bearing payload asserts, if any.
pub open spec fn asserted_value(p: ResearchEventPayload) -> Option<HexValue> {
    match p {
        ResearchEventPayload::BeliefUpdate { value, .. } => Some(value),
        ResearchEventPayload::ExperimentResult { value, .. } => Some(value),
        ResearchEventPayload::AgentVote { value, .. } => Some(value),
        _ => None,
    }
}

/// The payload withdraws its proposition: a retraction or a correction.
pub open spec fn withdraws(p: ResearchEventPayload, proposition: Seq<char>) -> bool {
    match p {
        ResearchEventPayload::Retraction { proposition: q, .. } => q@ == proposition,
        ResearchEventPayload::Correction { proposition: q, .. } => q@ == proposition,
        _ => false,
    }
}

impl ResearchEventPayload {
    /// The primary proposition this payload targets, if it has a single one.
    pub fn proposition(&self) -> (r: Option<&String>)
        ensures
            match r {
                Some(s) => primary_proposition(*self) == Some(s@),
                None => primary_proposition(*self) is None,
            },
    {
        match self {
            ResearchEventPayload::BeliefUpdate { proposition, .. } => Some(proposition),
            ResearchEventPayload::ExperimentResult { proposition, .. } => Some(proposition),
            ResearchEventPayload::AgentVote { proposition, .. } => Some(proposition),
            ResearchEventPayload::Retraction { proposition, .. } => Some(proposition),
            ResearchEventPayload::Supersession { proposition, .. } => Some(proposition),
            ResearchEventPayload::Correction { proposition, .. } => Some(proposition),
            _ => None,
        }
    }
}

impl ResearchEvent {
    /// Owned copy of the primary proposition this event targets, if any.
    pub fn payload_proposition_owned(&self) -> (r: Option<String>)
        ensures
            match r {
                Some(s) => primary_proposition(self.payload) == Some(s@),
                None => primary_proposition(self.payload) is None,
            },
    {
        match self.payload.proposition() {
            Some(p) => Some(p.clone()),
            None => None,
        }
    }

    /// All propositions this event touches, in declaration order: none for a
    /// goal update, one for a direct claim event, two for a relation or a
    /// supersession.
    pub fn touched_propositions(&self) -> (r: Vec<String>)
        ensures
            r@.map_values(|s: String| s@) == touched(self.payload),
    {
        let r = match &self.payload {
            ResearchEventPayload::BeliefUpdate { proposition, .. } => vec![proposition.clone()],
            ResearchEventPayload::ExperimentResult { proposition, .. } => vec![proposition.clone()],
            ResearchEventPayload::AgentVote { proposition, .. } => vec![proposition.clone()],
            ResearchEventPayload::Retraction { proposition, .. } => vec![proposition.clone()],
            ResearchEventPayload::Correction { proposition, .. } => vec![proposition.clone()],
            ResearchEventPayload::Supersession { proposition, superseded_by, .. } => vec![
                proposition.clone(),
                superseded_by.clone(),
            ],
            ResearchEventPayload::RelationDeclaration { from, to } => vec![
                from.clone(),
                to.clone(),
            ],
            ResearchEventPayload::RelationWithdrawal { from, to, .. } => vec![
                from.clone(),
                to.clone(),
            ],
            ResearchEventPayload::GoalUpdate { .. } => Vec::new(),
        };
        proof {
            assert(r@.map_values(|s: String| s@) =~= touched(self.payload));
        }
        r
    }
}

/// What kind of belief-revision event produced a [`RevisionDelta`].
#[derive(Debug, Clone, Copy, PartialEq, Eq, Structural)]
pub enum RevisionCause {
    Retraction,
    Correction,
    RelationWithdrawal,
    Supersession,
}

/// The belief change a revision event caused.
#[derive(Debug, Clone, PartialEq, Eq)]
pub struct RevisionDelta {
    pub proposition: String,
    pub previous: HexValue,
    pub current: HexValue,
    pub cause: RevisionCause,
    pub cycle: u64,
    pub superseded_by: Option<String>,
}

/// Result of applying one research event.
#[derive(Debug, Clone, PartialEq, Eq)]
pub struct ResearchEventOutcome {
    pub event: ResearchEvent,
    /// Actions recommended after processing the event.
    pub actions: Vec<Action>,
    /// Human-readable state summary after the event.
    pub state_summary: String,
    /// Belief-revision deltas this event produced.
    pub revisions: Vec<RevisionDelta>,
}

/// The cognitive-state dimension a trace replays at when it names none.
pub fn default_research_dimension() -> (d: usize)
    ensures
        d == 4,
{
    4
}

/// A replayable trace.
#[derive(Debug, Clone, PartialEq, Eq)]
pub struct ResearchTrace {
    pub dimension: usize,
    pub events: Vec<ResearchEvent>,
}

/// A trace of `events` at the default dimension.
impl From<Vec<ResearchEvent>> for ResearchTrace {
    fn from(events: Vec<ResearchEvent>) -> (t: Self) {
        ResearchTrace { dimension: default_research_dimension(), events }
    }
}

impl vstd::std_specs::convert::FromSpecImpl<Vec<ResearchEvent>> for ResearchTrace {
    open spec fn obeys_from_spec() -> bool {
        true
    }

    open spec fn from_spec(events: Vec<ResearchEvent>) -> ResearchTrace {
        ResearchTrace { dimension: 4, events }
    }
}


/// The escalation reason for a claim whose evidence is contradictory.
pub open spec fn contradiction_reason(proposition: Seq<char>) -> Seq<char> {
    "Research claim '"@ + proposition + "' has contradictory evidence"@
}

/// The recommendation for a claim at a settled value: a committed value
/// (`True`, `Probable`, `Doubtful`, `False`) is accepted, an `Unknown` one is
/// investigated, and a `Contradictory` one is escalated.
pub open spec fn recommended_for(proposition: Seq<char>, value: HexValue, actions: Seq<Action>) -> bool {
    &&& actions.len() == 1
    &&& match value {
        HexValue::Unknown => actions[0] matches Action::Investigate { topic } && topic@ == proposition,
        HexValue::Contradictory => actions[0] matches Action::Escalate { reason } && reason@
            == contradiction_reason(proposition),
        _ => actions[0] matches Action::Accept { proposition: p, value: v } && p@ == proposition && v == value,
    }
}

/// Recommend an action for a claim at a settled value.
pub fn recommend_for_claim(proposition: &str, value: HexValue) -> (actions: Vec<Action>)
    ensures
        recommended_for(proposition@, value, actions@),
{
    match value {
        HexValue::True | HexValue::Probable | HexValue::Doubtful | HexValue::False => {
            vec![Action::Accept { proposition: owned(proposition), value }]
        },
        HexValue::Unknown => vec![Action::Investigate { topic: owned(proposition) }],
        HexValue::Contradictory => {
            let mut reason = owned("Research claim '");
            push_all(&mut reason, proposition);
            push_all(&mut reason, "' has contradictory evidence");
            vec![Action::Escalate { reason }]
        },
    }
}

/// The dimension axis of goal `key`: its position among the goal keys in
/// ascending order, clamped to the last axis; `None` when the key is not a
/// goal or the state has no dimensions.
pub fn goal_axis<V>(goals: &KeyMap<V>, key: &str, dimension: usize) -> (r: Option<usize>)
    requires
        goals.wf(),
    ensures
        dimension == 0 ==> r is None,
        dimension > 0 ==> match r {
            None => !goals.map_view().contains_key(key@),
            Some(axis) => exists|i: int|
                0 <= i < goals.entry_seq().len() && goals.entry_seq()[i].0 == key@ && axis == if i
                    < dimension - 1 {
                    i
                } else {
                    dimension - 1
                },
        },
{
    if dimension == 0 {
        return None;
    }
    let max = dimension - 1;
    match goals.find(key) {
        Some(i) => Some(if i < max { i } else { max }),
        None => None,
    }
}

} // verus!
