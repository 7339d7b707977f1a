//! Post-hoc metrics read off a finished replay: which acceptances the rest
//! of the trace invalidated, which waits turned out to be unnecessary, how
//! long contradictions took to clear, how often each claim flipped, and how
//! many actions of each kind were recommended.
//!
//! These are single-arm diagnostics: they resolve decisions against the
//! replay's own final beliefs. Cross-arm comparisons use the scorers in
//! `paired_eval`, which grade against authored ground truth instead.

use vstd::prelude::*;
use crate::keymap::KeyMap;
use crate::research::{
    Action, ActionKind, HexValue, ResearchEventOutcome, ResearchEventPayload, withdraws, primary_proposition,
    asserted_value, kind_of, kind_label, action_kind, lemma_kind_label_injective,
};
use crate::text::{str_eq, has_substring, contains_str};

verus! {

/// Some event after `cycle` retracts or corrects `p`.
pub open spec fn later_withdrawn(outcomes: Seq<ResearchEventOutcome>, p: Seq<char>, cycle: u64) -> bool {
    exists|i: int|
        0 <= i < outcomes.len() && (#[trigger] outcomes[i]).event.cycle > cycle && withdraws(
            outcomes[i].event.payload,
            p,
        )
}

/// The final value of `p`, if the replay ended with one.
pub open spec fn final_value(fb: Map<Seq<char>, HexValue>, p: Seq<char>) -> Option<HexValue> {
    if fb.contains_key(p) {
        Some(fb[p])
    } else {
        None
    }
}

/// An acceptance of `p` at `v` on `cycle` was invalidated by the rest of the
/// trace: a later retraction or correction of `p`, a final value of
/// `Contradictory`, or a polarity flip between the accepted and the final
/// value.
pub open spec fn invalidated(
    p: Seq<char>,
    v: HexValue,
    cycle: u64,
    outcomes: Seq<ResearchEventOutcome>,
    fb: Map<Seq<char>, HexValue>,
) -> bool {
    let fv = final_value(fb, p);
    ||| later_withdrawn(outcomes, p, cycle)
    ||| fv == Some(HexValue::Contradictory)
    ||| (v.affirms() && fv is Some && fv->0.denies())
    ||| (v.denies() && fv is Some && fv->0.affirms())
}

/// A wait on `p` on `cycle` was unnecessary caution: `p` settled to `True`
/// or `Probable` and was never retracted or corrected afterwards.
pub open spec fn unnecessary_wait(
    p: Seq<char>,
    cycle: u64,
    outcomes: Seq<ResearchEventOutcome>,
    fb: Map<Seq<char>, HexValue>,
) -> bool {
    &&& final_value(fb, p) matches Some(v) && v.affirms()
    &&& !later_withdrawn(outcomes, p, cycle)
}

fn is_later_withdrawn(p: &str, cycle: u64, outcomes: &[ResearchEventOutcome]) -> (r: bool)
    ensures
        r == later_withdrawn(outcomes@, p@, cycle),
{
    let mut i: usize = 0;
    while i < outcomes.len()
        invariant
            i <= outcomes@.len(),
            forall|k: int|
                0 <= k < i ==> !((#[trigger] outcomes@[k]).event.cycle > cycle && withdraws(
                    outcomes@[k].event.payload,
                    p@,
                )),
        decreases outcomes@.len() - i,
    {
        let o = &outcomes[i];
        if o.event.cycle > cycle {
            let hit = match &o.event.payload {
                ResearchEventPayload::Retraction { proposition, .. } => str_eq(proposition.as_str(), p),
                ResearchEventPayload::Correction { proposition, .. } => str_eq(proposition.as_str(), p),
                _ => false,
            };
            if hit {
                return true;
            }
        }
        i = i + 1;
    }
    false
}

fn final_of(fb: &KeyMap<HexValue>, p: &str) -> (r: Option<HexValue>)
    requires
        fb.wf(),
    ensures
        r == final_value(fb.map_view(), p@),
{
    match fb.get(p) {
        Some(v) => Some(*v),
        None => None,
    }
}

/// Whether an acceptance of `proposition` at `accepted_value`, emitted on
/// `accept_cycle`, was later invalidated by the trace or by the final
/// beliefs. The one predicate both the aggregate false-acceptance count and
/// per-source reliability use.
pub fn accept_was_invalidated(
    proposition: &str,
    accepted_value: HexValue,
    accept_cycle: u64,
    outcomes: &[ResearchEventOutcome],
    final_beliefs: &KeyMap<HexValue>,
) -> (r: bool)
    requires
        final_beliefs.wf(),
    ensures
        r == invalidated(proposition@, accepted_value, accept_cycle, outcomes@, final_beliefs.map_view()),
{
    let later = is_later_withdrawn(proposition, accept_cycle, outcomes);
    let fv = final_of(final_beliefs, proposition);
    let became_contradictory = match fv {
        Some(HexValue::Contradictory) => true,
        _ => false,
    };
    let flipped = match (accepted_value, fv) {
        (HexValue::True, Some(HexValue::Doubtful)) | (HexValue::True, Some(HexValue::False))
        | (HexValue::Probable, Some(HexValue::Doubtful)) | (HexValue::Probable, Some(HexValue::False))
        | (HexValue::Doubtful, Some(HexValue::True)) | (HexValue::Doubtful, Some(HexValue::Probable))
        | (HexValue::False, Some(HexValue::True)) | (HexValue::False, Some(HexValue::Probable)) => true,
        _ => false,
    };
    later || became_contradictory || flipped
}

/// Whether a wait on `proposition` on `wait_cycle` turned out to be
/// unnecessary: the claim settled to `True`/`Probable` and was never
/// retracted or corrected after the wait. A claim ending `Contradictory` is
/// never counted: waiting on irreconcilable evidence is the correct call.
pub fn wait_was_unnecessary(
    proposition: &str,
    wait_cycle: u64,
    outcomes: &[ResearchEventOutcome],
    final_beliefs: &KeyMap<HexValue>,
) -> (r: bool)
    requires
        final_beliefs.wf(),
    ensures
        r == unnecessary_wait(proposition@, wait_cycle, outcomes@, final_beliefs.map_view()),
{
    let stands = match final_of(final_beliefs, proposition) {
        Some(HexValue::True) | Some(HexValue::Probable) => true,
        _ => false,
    };
    if !stands {
        return false;
    }
    !is_later_withdrawn(proposition, wait_cycle, outcomes)
}


/// How many of the actions are acceptances that the trace invalidated.
pub open spec fn false_accepts_in(
    actions: Seq<Action>,
    cycle: u64,
    outcomes: Seq<ResearchEventOutcome>,
    fb: Map<Seq<char>, HexValue>,
) -> nat
    decreases actions.len(),
{
    if actions.len() == 0 {
        0
    } else {
        false_accepts_in(actions.drop_last(), cycle, outcomes, fb) + match actions.last() {
            Action::Accept { proposition, value } => if invalidated(proposition@, value, cycle, outcomes, fb) {
                1nat
            } else {
                0nat
            },
            _ => 0nat,
        }
    }
}

/// Invalidated acceptances across the outcomes of `prefix`, each resolved
/// against the whole trace `outcomes`.
pub open spec fn false_accept_total(
    prefix: Seq<ResearchEventOutcome>,
    outcomes: Seq<ResearchEventOutcome>,
    fb: Map<Seq<char>, HexValue>,
) -> nat
    decreases prefix.len(),
{
    if prefix.len() == 0 {
        0
    } else {
        false_accept_total(prefix.drop_last(), outcomes, fb) + false_accepts_in(
            prefix.last().actions@,
            prefix.last().event.cycle,
            outcomes,
            fb,
        )
    }
}

/// How many `Wait`s the actions hold.
pub open spec fn wait_count(actions: Seq<Action>) -> nat
    decreases actions.len(),
{
    if actions.len() == 0 {
        0
    } else {
        wait_count(actions.drop_last()) + if actions.last() is Wait {
            1nat
        } else {
            0nat
        }
    }
}

/// Unnecessary waits across `prefix`: each `Wait` is attributed to the
/// proposition its own event asserted, and an event with no single
/// proposition is skipped.
pub open spec fn false_rejection_total(
    prefix: Seq<ResearchEventOutcome>,
    outcomes: Seq<ResearchEventOutcome>,
    fb: Map<Seq<char>, HexValue>,
) -> nat
    decreases prefix.len(),
{
    if prefix.len() == 0 {
        0
    } else {
        let o = prefix.last();
        false_rejection_total(prefix.drop_last(), outcomes, fb) + match primary_proposition(o.event.payload) {
            Some(p) => if unnecessary_wait(p, o.event.cycle, outcomes, fb) {
                wait_count(o.actions@)
            } else {
                0nat
            },
            None => 0nat,
        }
    }
}

/// The number of actions across the outcomes.
pub open spec fn action_total(outcomes: Seq<ResearchEventOutcome>) -> nat
    decreases outcomes.len(),
{
    if outcomes.len() == 0 {
        0
    } else {
        action_total(outcomes.drop_last()) + outcomes.last().actions@.len()
    }
}

proof fn lemma_prefix_step(s: Seq<ResearchEventOutcome>, i: int)
    requires
        0 <= i < s.len(),
    ensures
        s.take(i + 1).drop_last() == s.take(i),
        s.take(i + 1).last() == s[i],
{
    assert(s.take(i + 1).drop_last() =~= s.take(i));
}

proof fn lemma_action_total_mono(s: Seq<ResearchEventOutcome>, i: int, j: int)
    requires
        0 <= i <= j <= s.len(),
    ensures
        action_total(s.take(i)) <= action_total(s.take(j)),
    decreases j - i,
{
    if i < j {
        lemma_action_total_mono(s, i, j - 1);
        lemma_prefix_step(s, j - 1);
    }
}

/// The action count of a prefix grows with the prefix.
pub proof fn lemma_action_total_mono_pub(s: Seq<ResearchEventOutcome>, i: int, j: int)
    requires
        0 <= i <= j <= s.len(),
    ensures
        action_total(s.take(i)) <= action_total(s.take(j)),
        j > 0 ==> s[j - 1].actions@.len() <= action_total(s.take(j)),
{
    lemma_action_total_mono(s, i, j);
    if j > 0 {
        lemma_prefix_step(s, j - 1);
    }
}

proof fn lemma_action_prefix(a: Seq<Action>, i: int)
    requires
        0 <= i < a.len(),
    ensures
        a.take(i + 1).drop_last() == a.take(i),
        a.take(i + 1).last() == a[i],
{
    assert(a.take(i + 1).drop_last() =~= a.take(i));
}

fn false_accepts_of(
    actions: &Vec<Action>,
    cycle: u64,
    outcomes: &[ResearchEventOutcome],
    final_beliefs: &KeyMap<HexValue>,
) -> (n: u32)
    requires
        final_beliefs.wf(),
        actions@.len() <= u32::MAX,
    ensures
        n == false_accepts_in(actions@, cycle, outcomes@, final_beliefs.map_view()),
        n <= actions@.len(),
{
    let mut n: u32 = 0;
    let mut i: usize = 0;
    while i < actions.len()
        invariant
            final_beliefs.wf(),
            actions@.len() <= u32::MAX,
            i <= actions@.len(),
            n == false_accepts_in(actions@.take(i as int), cycle, outcomes@, final_beliefs.map_view()),
            n <= i,
        decreases actions@.len() - i,
    {
        proof {
            lemma_action_prefix(actions@, i as int);
        }
        if let Action::Accept { proposition, value } = &actions[i] {
            if accept_was_invalidated(proposition.as_str(), *value, cycle, outcomes, final_beliefs) {
                n = n + 1;
            }
        }
        i = i + 1;
    }
    proof {
        assert(actions@.take(actions@.len() as int) =~= actions@);
    }
    n
}

fn waits_of(actions: &Vec<Action>) -> (n: u32)
    requires
        actions@.len() <= u32::MAX,
    ensures
        n == wait_count(actions@),
        n <= actions@.len(),
{
    let mut n: u32 = 0;
    let mut i: usize = 0;
    while i < actions.len()
        invariant
            actions@.len() <= u32::MAX,
            i <= actions@.len(),
            n == wait_count(actions@.take(i as int)),
            n <= i,
        decreases actions@.len() - i,
    {
        proof {
            lemma_action_prefix(actions@, i as int);
        }
        if let Action::Wait = &actions[i] {
            n = n + 1;
        }
        i = i + 1;
    }
    proof {
        assert(actions@.take(actions@.len() as int) =~= actions@);
    }
    n
}

/// Invalidated acceptances across a replay, resolved against its own final
/// beliefs.
pub fn false_acceptance_count(outcomes: &[ResearchEventOutcome], final_beliefs: &KeyMap<HexValue>) -> (n: u32)
    requires
        final_beliefs.wf(),
        action_total(outcomes@) <= u32::MAX,
    ensures
        n == false_accept_total(outcomes@, outcomes@, final_beliefs.map_view()),
{
    let mut n: u32 = 0;
    let mut i: usize = 0;
    while i < outcomes.len()
        invariant
            final_beliefs.wf(),
            action_total(outcomes@) <= u32::MAX,
            i <= outcomes@.len(),
            n == false_accept_total(outcomes@.take(i as int), outcomes@, final_beliefs.map_view()),
            n <= action_total(outcomes@.take(i as int)),
        decreases outcomes@.len() - i,
    {
        proof {
            lemma_prefix_step(outcomes@, i as int);
            lemma_action_total_mono(outcomes@, i + 1, outcomes@.len() as int);
            assert(outcomes@.take(outcomes@.len() as int) =~= outcomes@);
        }
        let o = &outcomes[i];
        let k = false_accepts_of(&o.actions, o.event.cycle, outcomes, final_beliefs);
        n = n + k;
        i = i + 1;
    }
    proof {
        assert(outcomes@.take(outcomes@.len() as int) =~= outcomes@);
    }
    n
}

/// Unnecessary waits across a replay, resolved against its own final
/// beliefs.
pub fn false_rejection_count(outcomes: &[ResearchEventOutcome], final_beliefs: &KeyMap<HexValue>) -> (n: u32)
    requires
        final_beliefs.wf(),
        action_total(outcomes@) <= u32::MAX,
    ensures
        n == false_rejection_total(outcomes@, outcomes@, final_beliefs.map_view()),
{
    let mut n: u32 = 0;
    let mut i: usize = 0;
    while i < outcomes.len()
        invariant
            final_beliefs.wf(),
            action_total(outcomes@) <= u32::MAX,
            i <= outcomes@.len(),
            n == false_rejection_total(outcomes@.take(i as int), outcomes@, final_beliefs.map_view()),
            n <= action_total(outcomes@.take(i as int)),
        decreases outcomes@.len() - i,
    {
        proof {
            lemma_prefix_step(outcomes@, i as int);
            lemma_action_total_mono(outcomes@, i + 1, outcomes@.len() as int);
            assert(outcomes@.take(outcomes@.len() as int) =~= outcomes@);
        }
        let o = &outcomes[i];
        match o.event.payload.proposition() {
            Some(p) => {
                if wait_was_unnecessary(p.as_str(), o.event.cycle, outcomes, final_beliefs) {
                    let k = waits_of(&o.actions);
                    n = n + k;
                }
            },
            None => {},
        }
        i = i + 1;
    }
    proof {
        assert(outcomes@.take(outcomes@.len() as int) =~= outcomes@);
    }
    n
}


/// Some action is an escalation whose reason mentions contradiction.
pub open spec fn contradiction_escalated(actions: Seq<Action>) -> bool {
    exists|i: int|
        0 <= i < actions.len() && (#[trigger] actions[i] matches Action::Escalate { reason } && (has_substring(
            reason@,
            "contradictory"@,
        ) || has_substring(reason@, "Contradictory"@)))
}

/// The outcome marks its proposition contradictory: the loop escalated a
/// contradiction, or the event itself asserted `Contradictory`.
pub open spec fn marks_contradictory(o: ResearchEventOutcome) -> bool {
    contradiction_escalated(o.actions@) || asserted_value(o.event.payload) == Some(HexValue::Contradictory)
}

/// For each proposition, the cycle at which it was first marked
/// contradictory within `prefix`.
pub open spec fn first_contradictory(prefix: Seq<ResearchEventOutcome>) -> Map<Seq<char>, u64>
    decreases prefix.len(),
{
    if prefix.len() == 0 {
        Map::empty()
    } else {
        let m = first_contradictory(prefix.drop_last());
        let o = prefix.last();
        match primary_proposition(o.event.payload) {
            Some(p) => if marks_contradictory(o) && !m.contains_key(p) {
                m.insert(p, o.event.cycle)
            } else {
                m
            },
            None => m,
        }
    }
}

/// For each proposition first marked contradictory (per `fc`), the cycle of
/// the first later event on it within `prefix` that leaves it
/// non-contradictory: a retraction, or an event after which no contradiction
/// was escalated.
pub open spec fn recovered_at(prefix: Seq<ResearchEventOutcome>, fc: Map<Seq<char>, u64>) -> Map<Seq<char>, u64>
    decreases prefix.len(),
{
    if prefix.len() == 0 {
        Map::empty()
    } else {
        let m = recovered_at(prefix.drop_last(), fc);
        let o = prefix.last();
        match primary_proposition(o.event.payload) {
            Some(p) => if fc.contains_key(p) && o.event.cycle > fc[p] && !m.contains_key(p) && (
            o.event.payload is Retraction || !contradiction_escalated(o.actions@)) {
                m.insert(p, o.event.cycle)
            } else {
                m
            },
            None => m,
        }
    }
}

/// The shortest recovery, in cycles, over every proposition that became
/// contradictory and recovered; `None` when none did.
pub open spec fn is_min_recovery(r: Option<u64>, fc: Map<Seq<char>, u64>, rc: Map<Seq<char>, u64>) -> bool {
    match r {
        None => forall|p: Seq<char>| !(#[trigger] fc.contains_key(p) && rc.contains_key(p)),
        Some(x) => (exists|p: Seq<char>|
            #[trigger] fc.contains_key(p) && rc.contains_key(p) && x == rc[p] - fc[p]) && forall|p: Seq<char>|
            #[trigger] fc.contains_key(p) && rc.contains_key(p) ==> x <= rc[p] - fc[p],
    }
}

fn escalates_contradiction(actions: &Vec<Action>) -> (r: bool)
    ensures
        r == contradiction_escalated(actions@),
{
    let mut i: usize = 0;
    while i < actions.len()
        invariant
            i <= actions@.len(),
            forall|k: int|
                0 <= k < i ==> !(#[trigger] actions@[k] matches Action::Escalate { reason } && (has_substring(
                    reason@,
                    "contradictory"@,
                ) || has_substring(reason@, "Contradictory"@))),
        decreases actions@.len() - i,
    {
        if let Action::Escalate { reason } = &actions[i] {
            if contains_str(reason.as_str(), "contradictory") || contains_str(reason.as_str(), "Contradictory") {
                return true;
            }
        }
        i = i + 1;
    }
    false
}

fn payload_is_contradictory(payload: &ResearchEventPayload) -> (r: bool)
    ensures
        r == (asserted_value(*payload) == Some(HexValue::Contradictory)),
{
    match payload {
        ResearchEventPayload::BeliefUpdate { value, .. }
        | ResearchEventPayload::ExperimentResult { value, .. }
        | ResearchEventPayload::AgentVote { value, .. } => match value {
            HexValue::Contradictory => true,
            _ => false,
        },
        _ => false,
    }
}

/// Cycles from a proposition's first contradiction to its recovery, the
/// minimum over every proposition that recovered; `None` when the trace
/// never recovers.
pub fn contradiction_recovery_cycles(outcomes: &[ResearchEventOutcome]) -> (r: Option<u64>)
    ensures
        is_min_recovery(
            r,
            first_contradictory(outcomes@),
            recovered_at(outcomes@, first_contradictory(outcomes@)),
        ),
{
    let mut first: KeyMap<u64> = KeyMap::new();
    let mut i: usize = 0;
    while i < outcomes.len()
        invariant
            i <= outcomes@.len(),
            first.wf(),
            first.map_view() == first_contradictory(outcomes@.take(i as int)),
        decreases outcomes@.len() - i,
    {
        proof {
            lemma_prefix_step(outcomes@, i as int);
        }
        let o = &outcomes[i];
        match o.event.payload.proposition() {
            Some(p) => {
                let marked = escalates_contradiction(&o.actions) || payload_is_contradictory(&o.event.payload);
                if marked {
                    match first.find(p.as_str()) {
                        Some(_) => {},
                        None => {
                            first.insert(p.clone(), o.event.cycle);
                        },
                    }
                }
            },
            None => {},
        }
        i = i + 1;
    }
    proof {
        assert(outcomes@.take(outcomes@.len() as int) =~= outcomes@);
    }
    let ghost fc = first.map_view();
    let mut rec: KeyMap<u64> = KeyMap::new();
    let mut j: usize = 0;
    while j < outcomes.len()
        invariant
            j <= outcomes@.len(),
            first.wf(),
            first.map_view() == fc,
            rec.wf(),
            rec.map_view() == recovered_at(outcomes@.take(j as int), fc),
            forall|p: Seq<char>| #[trigger] rec.map_view().contains_key(p) ==> fc.contains_key(p)
                && rec.map_view()[p] > fc[p],
        decreases outcomes@.len() - j,
    {
        proof {
            lemma_prefix_step(outcomes@, j as int);
        }
        let o = &outcomes[j];
        match o.event.payload.proposition() {
            Some(p) => {
                match first.get(p.as_str()) {
                    Some(start) => {
                        if o.event.cycle > *start && rec.find(p.as_str()).is_none() {
                            let cleared = match &o.event.payload {
                                ResearchEventPayload::Retraction { .. } => true,
                                _ => false,
                            };
                            let still = escalates_contradiction(&o.actions);
                            if cleared || !still {
                                rec.insert(p.clone(), o.event.cycle);
                            }
                        }
                    },
                    None => {},
                }
            },
            None => {},
        }
        j = j + 1;
    }
    proof {
        assert(outcomes@.take(outcomes@.len() as int) =~= outcomes@);
    }
    let ghost rc = rec.map_view();
    let keys = first.keys();
    let ghost kv = crate::text::string_views(keys@);
    let mut best: Option<u64> = None;
    let mut k: usize = 0;
    while k < keys.len()
        invariant
            k <= keys@.len(),
            kv == crate::text::string_views(keys@),
            forall|p: Seq<char>| kv.contains(p) <==> #[trigger] fc.contains_key(p),
            first.wf(),
            first.map_view() == fc,
            rec.wf(),
            rec.map_view() == rc,
            forall|p: Seq<char>| #[trigger] rc.contains_key(p) ==> fc.contains_key(p) && rc[p] > fc[p],
            match best {
                None => forall|q: int| 0 <= q < k ==> !(#[trigger] rc.contains_key(kv[q])),
                Some(x) => (exists|q: int| 0 <= q < k && #[trigger] rc.contains_key(kv[q]) && x == rc[kv[q]] - fc[kv[q]])
                    && forall|q: int| 0 <= q < k && #[trigger] rc.contains_key(kv[q]) ==> x <= rc[kv[q]] - fc[kv[q]],
            },
        decreases keys@.len() - k,
    {
        let name = keys[k].as_str();
        proof {
            assert(kv[k as int] == name@);
            assert(kv.contains(name@));
        }
        match rec.get(name) {
            Some(end) => {
                match first.get(name) {
                    Some(start) => {
                        let d = *end - *start;
                        match best {
                            None => {
                                best = Some(d);
                            },
                            Some(x) => {
                                if d < x {
                                    best = Some(d);
                                }
                            },
                        }
                    },
                    None => {},
                }
            },
            None => {},
        }
        k = k + 1;
    }
    proof {
        match best {
            None => {
                assert forall|p: Seq<char>| !(#[trigger] fc.contains_key(p) && rc.contains_key(p)) by {
                    if fc.contains_key(p) && rc.contains_key(p) {
                        assert(kv.contains(p));
                        let q = choose|q: int| 0 <= q < kv.len() && kv[q] == p;
                        assert(rc.contains_key(kv[q]));
                    }
                }
            },
            Some(x) => {
                let q = choose|q: int| 0 <= q < keys@.len() && #[trigger] rc.contains_key(kv[q]) && x == rc[kv[q]] - fc[kv[q]];
                assert(fc.contains_key(kv[q]));
                assert forall|p: Seq<char>| #[trigger] fc.contains_key(p) && rc.contains_key(p) implies x <= rc[p] - fc[p] by {
                    assert(kv.contains(p));
                    let q2 = choose|q2: int| 0 <= q2 < kv.len() && kv[q2] == p;
                    assert(rc.contains_key(kv[q2]));
                }
            },
        }
    }
    best
}


/// The `(proposition, value)` a payload asserts for flip tracking: the value
/// of a claim, experiment, vote or correction, `Unknown` for a retraction,
/// and nothing for goals, relations and supersessions.
pub open spec fn value_event(p: ResearchEventPayload) -> Option<(Seq<char>, HexValue)> {
    match p {
        ResearchEventPayload::BeliefUpdate { proposition, value } => Some((proposition@, value)),
        ResearchEventPayload::ExperimentResult { proposition, value } => Some((proposition@, value)),
        ResearchEventPayload::AgentVote { proposition, value } => Some((proposition@, value)),
        ResearchEventPayload::Retraction { proposition, .. } => Some((proposition@, HexValue::Unknown)),
        ResearchEventPayload::Correction { proposition, value, .. } => Some((proposition@, value)),
        _ => None,
    }
}

/// For each proposition touched by a value-bearing event in `prefix`: how
/// many such events, how many of them changed its value from the previous
/// one, and its latest value.
pub open spec fn flip_history(prefix: Seq<ResearchEventOutcome>) -> Map<Seq<char>, (nat, nat, HexValue)>
    decreases prefix.len(),
{
    if prefix.len() == 0 {
        Map::empty()
    } else {
        let m = flip_history(prefix.drop_last());
        match value_event(prefix.last().event.payload) {
            Some((p, v)) => if m.contains_key(p) {
                m.insert(p, ((m[p].0 + 1) as nat, (m[p].1 + if m[p].2 != v { 1nat } else { 0nat }) as nat, v))
            } else {
                m.insert(p, (1nat, 0nat, v))
            },
            None => m,
        }
    }
}

/// A claim's value history: value-bearing events on it, how many of them
/// changed its value, and its latest value.
#[derive(Debug, Clone, Copy, PartialEq, Eq, Structural)]
pub struct ClaimStability {
    pub events: u32,
    pub flips: u32,
    pub last_value: HexValue,
}

/// How many actions of each kind, keyed by the kind's name.
pub open spec fn kind_counts(actions: Seq<Action>) -> Map<Seq<char>, nat>
    decreases actions.len(),
{
    if actions.len() == 0 {
        Map::empty()
    } else {
        let m = kind_counts(actions.drop_last());
        let l = kind_label(kind_of(actions.last()));
        m.insert(l, if m.contains_key(l) { m[l] + 1 } else { 1nat })
    }
}

/// Every action of the outcomes, in order.
pub open spec fn all_actions(outcomes: Seq<ResearchEventOutcome>) -> Seq<Action>
    decreases outcomes.len(),
{
    if outcomes.len() == 0 {
        Seq::empty()
    } else {
        all_actions(outcomes.drop_last()) + outcomes.last().actions@
    }
}

/// How many of the statuses are `True` or `Probable`.
pub open spec fn achieved_count(statuses: Seq<HexValue>) -> nat
    decreases statuses.len(),
{
    if statuses.len() == 0 {
        0
    } else {
        achieved_count(statuses.drop_last()) + if statuses.last().affirms() {
            1nat
        } else {
            0nat
        }
    }
}

proof fn lemma_flip_bounds(prefix: Seq<ResearchEventOutcome>)
    ensures
        forall|p: Seq<char>| #[trigger] flip_history(prefix).contains_key(p) ==> flip_history(prefix)[p].0
            <= prefix.len() && flip_history(prefix)[p].1 <= flip_history(prefix)[p].0,
    decreases prefix.len(),
{
    if prefix.len() > 0 {
        let t = prefix.drop_last();
        lemma_flip_bounds(t);
        let m = flip_history(t);
        assert forall|p: Seq<char>| #[trigger] flip_history(prefix).contains_key(p) implies flip_history(prefix)[p].0
            <= prefix.len() && flip_history(prefix)[p].1 <= flip_history(prefix)[p].0 by {
            if m.contains_key(p) {
                assert(m[p].0 <= t.len() && m[p].1 <= m[p].0);
            }
        }
    }
}

proof fn lemma_kind_count_bounds(actions: Seq<Action>)
    ensures
        forall|l: Seq<char>| #[trigger] kind_counts(actions).contains_key(l) ==> kind_counts(actions)[l] <= actions.len(),
    decreases actions.len(),
{
    if actions.len() > 0 {
        let t = actions.drop_last();
        lemma_kind_count_bounds(t);
        let m = kind_counts(t);
        assert forall|l: Seq<char>| #[trigger] kind_counts(actions).contains_key(l) implies kind_counts(actions)[l]
            <= actions.len() by {
            if m.contains_key(l) {
                assert(m[l] <= t.len());
            }
        }
    }
}

proof fn lemma_all_actions_len(outcomes: Seq<ResearchEventOutcome>)
    ensures
        all_actions(outcomes).len() == action_total(outcomes),
    decreases outcomes.len(),
{
    if outcomes.len() > 0 {
        lemma_all_actions_len(outcomes.drop_last());
    }
}

/// How many actions of kind `k` the counts record (none when its name is absent).
pub open spec fn kind_count(m: Map<Seq<char>, nat>, k: ActionKind) -> nat {
    if m.contains_key(kind_label(k)) {
        m[kind_label(k)]
    } else {
        0
    }
}

/// The counts of the eight kinds, added up.
pub open spec fn kinds_sum(m: Map<Seq<char>, nat>) -> nat {
    kind_count(m, ActionKind::UpdateBelief) + kind_count(m, ActionKind::SendMessage) + kind_count(
        m,
        ActionKind::Investigate,
    ) + kind_count(m, ActionKind::Escalate) + kind_count(m, ActionKind::Retry) + kind_count(
        m,
        ActionKind::Accept,
    ) + kind_count(m, ActionKind::Wait) + kind_count(m, ActionKind::Log)
}

proof fn lemma_kind_counts_partition(actions: Seq<Action>)
    ensures
        forall|l: Seq<char>| #[trigger] kind_counts(actions).contains_key(l) ==> exists|k: ActionKind|
            kind_label(k) == l,
        kinds_sum(kind_counts(actions)) == actions.len(),
    decreases actions.len(),
{
    if actions.len() > 0 {
        let t = actions.drop_last();
        lemma_kind_counts_partition(t);
        let m = kind_counts(t);
        let k = kind_of(actions.last());
        let l = kind_label(k);
        let m2 = kind_counts(actions);
        assert(m2 == m.insert(l, if m.contains_key(l) { m[l] + 1 } else { 1nat }));
        assert forall|j: ActionKind| #[trigger] kind_count(m2, j) == kind_count(m, j) + if j == k {
            1nat
        } else {
            0nat
        } by {
            lemma_kind_label_injective(j, k);
        }
        assert(kind_count(m2, ActionKind::UpdateBelief) == kind_count(m, ActionKind::UpdateBelief) + if ActionKind::UpdateBelief == k { 1nat } else { 0nat });
        assert(kind_count(m2, ActionKind::SendMessage) == kind_count(m, ActionKind::SendMessage) + if ActionKind::SendMessage == k { 1nat } else { 0nat });
        assert(kind_count(m2, ActionKind::Investigate) == kind_count(m, ActionKind::Investigate) + if ActionKind::Investigate == k { 1nat } else { 0nat });
        assert(kind_count(m2, ActionKind::Escalate) == kind_count(m, ActionKind::Escalate) + if ActionKind::Escalate == k { 1nat } else { 0nat });
        assert(kind_count(m2, ActionKind::Retry) == kind_count(m, ActionKind::Retry) + if ActionKind::Retry == k { 1nat } else { 0nat });
        assert(kind_count(m2, ActionKind::Accept) == kind_count(m, ActionKind::Accept) + if ActionKind::Accept == k { 1nat } else { 0nat });
        assert(kind_count(m2, ActionKind::Wait) == kind_count(m, ActionKind::Wait) + if ActionKind::Wait == k { 1nat } else { 0nat });
        assert(kind_count(m2, ActionKind::Log) == kind_count(m, ActionKind::Log) + if ActionKind::Log == k { 1nat } else { 0nat });
        assert forall|x: Seq<char>| #[trigger] m2.contains_key(x) implies exists|j: ActionKind| kind_label(j) == x by {
            if x == l {
                assert(kind_label(k) == x);
            }
        }
    }
}

/// The per-kind action counts of a replay partition its actions: every key
/// names one of the eight kinds, and the counts add up to the number of
/// actions recommended over the replay.
pub proof fn law_kind_counts_add_up_to_the_actions(outcomes: Seq<ResearchEventOutcome>)
    ensures
        forall|l: Seq<char>| #[trigger] kind_counts(all_actions(outcomes)).contains_key(l) ==> exists|
            k: ActionKind,
        | kind_label(k) == l,
        kinds_sum(kind_counts(all_actions(outcomes))) == action_total(outcomes),
{
    lemma_kind_counts_partition(all_actions(outcomes));
    lemma_all_actions_len(outcomes);
}

/// Each claim's flip history over a replay.
pub fn claim_stability(outcomes: &[ResearchEventOutcome]) -> (m: KeyMap<ClaimStability>)
    requires
        outcomes@.len() <= u32::MAX,
    ensures
        m.wf(),
        forall|p: Seq<char>| #[trigger] m.map_view().contains_key(p) <==> flip_history(outcomes@).contains_key(p),
        forall|p: Seq<char>| #[trigger] m.map_view().contains_key(p) ==> m.map_view()[p].events == flip_history(outcomes@)[p].0
            && m.map_view()[p].flips == flip_history(outcomes@)[p].1 && m.map_view()[p].last_value == flip_history(outcomes@)[p].2,
{
    let mut m: KeyMap<ClaimStability> = KeyMap::new();
    let mut i: usize = 0;
    while i < outcomes.len()
        invariant
            outcomes@.len() <= u32::MAX,
            i <= outcomes@.len(),
            m.wf(),
            forall|p: Seq<char>| #[trigger] m.map_view().contains_key(p) <==> flip_history(outcomes@.take(i as int)).contains_key(p),
            forall|p: Seq<char>| #[trigger] m.map_view().contains_key(p) ==> m.map_view()[p].events == flip_history(outcomes@.take(i as int))[p].0
                && m.map_view()[p].flips == flip_history(outcomes@.take(i as int))[p].1 && m.map_view()[p].last_value == flip_history(outcomes@.take(i as int))[p].2,
        decreases outcomes@.len() - i,
    {
        proof {
            lemma_prefix_step(outcomes@, i as int);
            lemma_flip_bounds(outcomes@.take(i as int));
        }
        let ghost h = flip_history(outcomes@.take(i as int));
        let ghost before = m.map_view();
        let o = &outcomes[i];
        let ev: Option<(&String, HexValue)> = match &o.event.payload {
            ResearchEventPayload::BeliefUpdate { proposition, value } => Some((proposition, *value)),
            ResearchEventPayload::ExperimentResult { proposition, value } => Some((proposition, *value)),
            ResearchEventPayload::AgentVote { proposition, value } => Some((proposition, *value)),
            ResearchEventPayload::Retraction { proposition, .. } => Some((proposition, HexValue::Unknown)),
            ResearchEventPayload::Correction { proposition, value, .. } => Some((proposition, *value)),
            _ => None,
        };
        match ev {
            Some((p, v)) => {
                match m.find(p.as_str()) {
                    Some(pos) => {
                        let cur = *m.value_at(pos);
                        let changed = cur.last_value != v;
                        let next = ClaimStability {
                            events: cur.events + 1,
                            flips: if changed { cur.flips + 1 } else { cur.flips },
                            last_value: v,
                        };
                        m.insert(p.clone(), next);
                    },
                    None => {
                        m.insert(p.clone(), ClaimStability { events: 1, flips: 0, last_value: v });
                    },
                }
            },
            None => {},
        }
        i = i + 1;
    }
    proof {
        assert(outcomes@.take(outcomes@.len() as int) =~= outcomes@);
    }
    m
}

/// How many actions of each kind a replay recommended, keyed by the kind's
/// name.
pub fn action_counts_by_kind(outcomes: &[ResearchEventOutcome]) -> (m: KeyMap<u32>)
    requires
        action_total(outcomes@) <= u32::MAX,
    ensures
        m.wf(),
        forall|l: Seq<char>| #[trigger] m.map_view().contains_key(l) <==> kind_counts(all_actions(outcomes@)).contains_key(l),
        forall|l: Seq<char>| #[trigger] m.map_view().contains_key(l) ==> m.map_view()[l] == kind_counts(all_actions(outcomes@))[l],
{
    let mut m: KeyMap<u32> = KeyMap::new();
    let mut i: usize = 0;
    while i < outcomes.len()
        invariant
            action_total(outcomes@) <= u32::MAX,
            i <= outcomes@.len(),
            m.wf(),
            forall|l: Seq<char>| #[trigger] m.map_view().contains_key(l) <==> kind_counts(all_actions(outcomes@.take(i as int))).contains_key(l),
            forall|l: Seq<char>| #[trigger] m.map_view().contains_key(l) ==> m.map_view()[l] == kind_counts(all_actions(outcomes@.take(i as int)))[l],
        decreases outcomes@.len() - i,
    {
        proof {
            lemma_prefix_step(outcomes@, i as int);
            lemma_action_total_mono(outcomes@, i + 1, outcomes@.len() as int);
            assert(outcomes@.take(outcomes@.len() as int) =~= outcomes@);
            lemma_all_actions_len(outcomes@.take(i + 1));
        }
        let acts = &outcomes[i].actions;
        let ghost base = all_actions(outcomes@.take(i as int));
        let mut j: usize = 0;
        while j < acts.len()
            invariant
                j <= acts@.len(),
                m.wf(),
                base.len() + acts@.len() <= u32::MAX,
                forall|l: Seq<char>| #[trigger] m.map_view().contains_key(l) <==> kind_counts(base + acts@.take(j as int)).contains_key(l),
                forall|l: Seq<char>| #[trigger] m.map_view().contains_key(l) ==> m.map_view()[l] == kind_counts(base + acts@.take(j as int))[l],
            decreases acts@.len() - j,
        {
            let ghost cur = base + acts@.take(j as int);
            proof {
                assert(base + acts@.take(j + 1) =~= cur.push(acts@[j as int]));
                assert((base + acts@.take(j + 1)).drop_last() =~= cur);
                lemma_kind_count_bounds(cur);
            }
            let label = action_kind(&acts[j]).label();
            match m.find(label) {
                Some(pos) => {
                    let c = *m.value_at(pos);
                    m.insert(label.to_owned(), c + 1);
                },
                None => {
                    m.insert(label.to_owned(), 1);
                },
            }
            j = j + 1;
        }
        proof {
            assert(acts@.take(acts@.len() as int) =~= acts@);
        }
        i = i + 1;
    }
    proof {
        assert(outcomes@.take(outcomes@.len() as int) =~= outcomes@);
    }
    m
}

/// How many goal statuses are `True` or `Probable`.
pub fn goals_achieved(statuses: &[HexValue]) -> (n: usize)
    ensures
        n == achieved_count(statuses@),
{
    let mut n: usize = 0;
    let mut i: usize = 0;
    while i < statuses.len()
        invariant
            i <= statuses@.len(),
            n == achieved_count(statuses@.take(i as int)),
            n <= i,
        decreases statuses@.len() - i,
    {
        proof {
            assert(statuses@.take(i + 1).drop_last() =~= statuses@.take(i as int));
        }
        match statuses[i] {
            HexValue::True | HexValue::Probable => {
                n = n + 1;
            },
            _ => {},
        }
        i = i + 1;
    }
    proof {
        assert(statuses@.take(statuses@.len() as int) =~= statuses@);
    }
    n
}


/// The replay metrics that are exact counts. The rates a report shows —
/// goal completion and consensus stability — are ratios of these.
#[derive(Debug, Clone, PartialEq, Eq)]
pub struct ReplayCounts {
    /// Cycles from a proposition's first contradiction to its recovery, the
    /// minimum over propositions; `None` if the trace never recovers.
    pub contradiction_recovery_cycles: Option<u64>,
    /// Acceptances later invalidated.
    pub false_acceptance_count: u32,
    /// Waits on claims that went on to stand.
    pub false_rejection_count: u32,
    /// Goals whose final status is `True` or `Probable`.
    pub goals_achieved: usize,
    /// All goals.
    pub goals_total: usize,
    /// Each touched claim's flip history.
    pub claim_stability: KeyMap<ClaimStability>,
    /// Actions recommended, by kind name.
    pub action_counts_by_kind: KeyMap<u32>,
}

/// Compute the counted metrics over a finished replay, resolving decisions
/// against its own final beliefs and goal statuses.
pub fn compute_metrics(
    outcomes: &[ResearchEventOutcome],
    final_beliefs: &KeyMap<HexValue>,
    goal_statuses: &[HexValue],
) -> (r: ReplayCounts)
    requires
        final_beliefs.wf(),
        action_total(outcomes@) <= u32::MAX,
        outcomes@.len() <= u32::MAX,
    ensures
        is_min_recovery(
            r.contradiction_recovery_cycles,
            first_contradictory(outcomes@),
            recovered_at(outcomes@, first_contradictory(outcomes@)),
        ),
        r.false_acceptance_count == false_accept_total(outcomes@, outcomes@, final_beliefs.map_view()),
        r.false_rejection_count == false_rejection_total(outcomes@, outcomes@, final_beliefs.map_view()),
        r.goals_achieved == achieved_count(goal_statuses@),
        r.goals_total == goal_statuses@.len(),
        r.claim_stability.wf(),
        forall|p: Seq<char>| #[trigger] r.claim_stability.map_view().contains_key(p) <==> flip_history(outcomes@).contains_key(p),
        forall|p: Seq<char>| #[trigger] r.claim_stability.map_view().contains_key(p) ==> r.claim_stability.map_view()[p].events
            == flip_history(outcomes@)[p].0 && r.claim_stability.map_view()[p].flips == flip_history(outcomes@)[p].1
            && r.claim_stability.map_view()[p].last_value == flip_history(outcomes@)[p].2,
        r.action_counts_by_kind.wf(),
        forall|l: Seq<char>| #[trigger] r.action_counts_by_kind.map_view().contains_key(l) <==> kind_counts(all_actions(outcomes@)).contains_key(l),
        forall|l: Seq<char>| #[trigger] r.action_counts_by_kind.map_view().contains_key(l) ==> r.action_counts_by_kind.map_view()[l]
            == kind_counts(all_actions(outcomes@))[l],
{
    ReplayCounts {
        contradiction_recovery_cycles: contradiction_recovery_cycles(outcomes),
        false_acceptance_count: false_acceptance_count(outcomes, final_beliefs),
        false_rejection_count: false_rejection_count(outcomes, final_beliefs),
        goals_achieved: goals_achieved(goal_statuses),
        goals_total: goal_statuses.len(),
        claim_stability: claim_stability(outcomes),
        action_counts_by_kind: action_counts_by_kind(outcomes),
    }
}

} // verus!
