//! Forecast calibration bookkeeping: how many forecasts about each belief
//! are scored, void or still pending, and which forecasts a replay report
//! may speak for — only those about beliefs the replayed trace touched.
//! (The Brier means themselves are floating-point and are computed by the
//! caller from these counts.)

use vstd::prelude::*;
use crate::keymap::KeyMap;
use crate::research::{touched, HexValue, ResearchEventOutcome};
use crate::text::str_eq;

verus! {

/// Where a forecast record stands.
#[derive(Debug, Clone, Copy, PartialEq, Eq, Structural)]
pub enum ForecastState {
    /// No resolution yet.
    Pending,
    /// Resolved, but the observable could not be scored.
    Void,
    /// Resolved with a Brier score.
    Scored,
}

/// Counts of one belief's forecasts by state.
#[derive(Debug, Clone, Copy, PartialEq, Eq, Structural)]
pub struct CalibrationCounts {
    pub scored: usize,
    pub void: usize,
    pub pending: usize,
}

/// How many of `records` are about `belief` and in state `st`.
pub open spec fn count_in(records: Seq<(String, ForecastState)>, belief: Seq<char>, st: ForecastState) -> nat
    decreases records.len(),
{
    if records.len() == 0 {
        0
    } else {
        count_in(records.drop_last(), belief, st) + if records.last().0@ == belief && records.last().1 == st {
            1nat
        } else {
            0nat
        }
    }
}

/// How many of `records` are about `belief`.
pub open spec fn mentions(records: Seq<(String, ForecastState)>, belief: Seq<char>) -> nat {
    count_in(records, belief, ForecastState::Scored) + count_in(records, belief, ForecastState::Void) + count_in(
        records,
        belief,
        ForecastState::Pending,
    )
}

/// How many of `records` are in state `st`, whatever their belief.
pub open spec fn total_in(records: Seq<(String, ForecastState)>, st: ForecastState) -> nat
    decreases records.len(),
{
    if records.len() == 0 {
        0
    } else {
        total_in(records.drop_last(), st) + if records.last().1 == st {
            1nat
        } else {
            0nat
        }
    }
}

/// `m` holds, for exactly the beliefs `records` mention, their counts.
pub open spec fn counts_match(m: KeyMap<CalibrationCounts>, records: Seq<(String, ForecastState)>) -> bool {
    &&& m.wf()
    &&& forall|b: Seq<char>| #[trigger] m.map_view().contains_key(b) <==> mentions(records, b) > 0
    &&& forall|b: Seq<char>| #[trigger]
        m.map_view().contains_key(b) ==> {
            let c = m.map_view()[b];
            &&& c.scored == count_in(records, b, ForecastState::Scored)
            &&& c.void == count_in(records, b, ForecastState::Void)
            &&& c.pending == count_in(records, b, ForecastState::Pending)
        }
}

proof fn lemma_count_bound(records: Seq<(String, ForecastState)>, b: Seq<char>, st: ForecastState)
    ensures
        count_in(records, b, st) <= records.len(),
    decreases records.len(),
{
    if records.len() > 0 {
        lemma_count_bound(records.drop_last(), b, st);
    }
}

proof fn lemma_total_bound(records: Seq<(String, ForecastState)>, st: ForecastState)
    ensures
        total_in(records, st) <= records.len(),
    decreases records.len(),
{
    if records.len() > 0 {
        lemma_total_bound(records.drop_last(), st);
    }
}

/// Per-belief counts of `records`, each a forecast's belief id and state.
pub fn calibration_counts(records: &[(String, ForecastState)]) -> (m: KeyMap<CalibrationCounts>)
    ensures
        counts_match(m, records@),
{
    let mut m: KeyMap<CalibrationCounts> = KeyMap::new();
    let mut i: usize = 0;
    proof {
        assert(records@.take(0) =~= Seq::<(String, ForecastState)>::empty());
    }
    while i < records.len()
        invariant
            i <= records@.len(),
            counts_match(m, records@.take(i as int)),
        decreases records@.len() - i,
    {
        let ghost prev = records@.take(i as int);
        let ghost next = records@.take(i + 1);
        let (belief, st) = (&records[i].0, records[i].1);
        proof {
            assert(next.drop_last() =~= prev);
            assert(next.last() == records@[i as int]);
            lemma_count_bound(prev, belief@, ForecastState::Scored);
            lemma_count_bound(prev, belief@, ForecastState::Void);
            lemma_count_bound(prev, belief@, ForecastState::Pending);
            assert forall|b: Seq<char>, s: ForecastState| b != belief@ implies #[trigger] count_in(next, b, s)
                == count_in(prev, b, s) by {}
        }
        let one_scored: usize = if st == ForecastState::Scored { 1 } else { 0 };
        let one_void: usize = if st == ForecastState::Void { 1 } else { 0 };
        let one_pending: usize = if st == ForecastState::Pending { 1 } else { 0 };
        match m.find(belief.as_str()) {
            Some(k) => {
                let c = m.value_at(k);
                let updated = CalibrationCounts {
                    scored: c.scored + one_scored,
                    void: c.void + one_void,
                    pending: c.pending + one_pending,
                };
                m.set_value(k, updated);
            },
            None => {
                m.insert(belief.clone(), CalibrationCounts { scored: one_scored, void: one_void, pending: one_pending });
            },
        }
        i = i + 1;
    }
    proof {
        assert(records@.take(records@.len() as int) =~= records@);
    }
    m
}

/// Counts of all `records` by state, across beliefs.
pub fn pooled_counts(records: &[(String, ForecastState)]) -> (c: CalibrationCounts)
    ensures
        c.scored == total_in(records@, ForecastState::Scored),
        c.void == total_in(records@, ForecastState::Void),
        c.pending == total_in(records@, ForecastState::Pending),
{
    let mut c = CalibrationCounts { scored: 0, void: 0, pending: 0 };
    let mut i: usize = 0;
    proof {
        assert(records@.take(0) =~= Seq::<(String, ForecastState)>::empty());
    }
    while i < records.len()
        invariant
            i <= records@.len(),
            c.scored == total_in(records@.take(i as int), ForecastState::Scored),
            c.void == total_in(records@.take(i as int), ForecastState::Void),
            c.pending == total_in(records@.take(i as int), ForecastState::Pending),
        decreases records@.len() - i,
    {
        proof {
            let prev = records@.take(i as int);
            assert(records@.take(i + 1).drop_last() =~= prev);
            lemma_total_bound(prev, ForecastState::Scored);
            lemma_total_bound(prev, ForecastState::Void);
            lemma_total_bound(prev, ForecastState::Pending);
        }
        match records[i].1 {
            ForecastState::Scored => c.scored = c.scored + 1,
            ForecastState::Void => c.void = c.void + 1,
            ForecastState::Pending => c.pending = c.pending + 1,
        }
        i = i + 1;
    }
    proof {
        assert(records@.take(records@.len() as int) =~= records@);
    }
    c
}

/// Some event of `outcomes` touches `belief`.
pub open spec fn touched_in(outcomes: Seq<ResearchEventOutcome>, belief: Seq<char>) -> bool {
    exists|i: int| 0 <= i < outcomes.len() && touched(outcomes[i].event.payload).contains(belief)
}

/// A replay touched `belief`: an event named it, or it survives among the
/// final beliefs (propagation can put it there without an event naming it).
pub open spec fn replay_touched(
    outcomes: Seq<ResearchEventOutcome>,
    final_beliefs: Map<Seq<char>, HexValue>,
    belief: Seq<char>,
) -> bool {
    final_beliefs.contains_key(belief) || touched_in(outcomes, belief)
}

/// Whether some event of `outcomes` touches `belief`.
fn any_event_touches(outcomes: &[ResearchEventOutcome], belief: &str) -> (r: bool)
    ensures
        r == touched_in(outcomes@, belief@),
{
    let mut i: usize = 0;
    while i < outcomes.len()
        invariant
            i <= outcomes@.len(),
            forall|q: int| 0 <= q < i ==> !touched(outcomes@[q].event.payload).contains(belief@),
        decreases outcomes@.len() - i,
    {
        let props = outcomes[i].event.touched_propositions();
        let ghost views = props@.map_values(|s: String| s@);
        let mut j: usize = 0;
        while j < props.len()
            invariant
                j <= props@.len(),
                i < outcomes@.len(),
                views == props@.map_values(|s: String| s@),
                views == touched(outcomes@[i as int].event.payload),
                forall|q: int| 0 <= q < j ==> views[q] != belief@,
            decreases props@.len() - j,
        {
            if str_eq(props[j].as_str(), belief) {
                proof {
                    assert(views[j as int] == belief@);
                }
                return true;
            }
            j = j + 1;
        }
        proof {
            assert(!views.contains(belief@));
        }
        i = i + 1;
    }
    false
}

/// Which forecast records a replay report may speak for: those whose belief
/// the replay touched. `belief_ids` are the records' belief ids; the
/// ledger is ecosystem-wide, and a forecast about an untouched belief would
/// read as if the trace's own claims had been scored.
pub fn in_scope(
    outcomes: &[ResearchEventOutcome],
    final_beliefs: &KeyMap<HexValue>,
    belief_ids: &[String],
) -> (keep: Vec<bool>)
    requires
        final_beliefs.wf(),
    ensures
        keep@.len() == belief_ids@.len(),
        forall|i: int|
            0 <= i < belief_ids@.len() ==> #[trigger] keep@[i] == replay_touched(
                outcomes@,
                final_beliefs.map_view(),
                belief_ids@[i]@,
            ),
{
    let mut keep: Vec<bool> = Vec::new();
    let mut i: usize = 0;
    while i < belief_ids.len()
        invariant
            i <= belief_ids@.len(),
            final_beliefs.wf(),
            keep@.len() == i,
            forall|q: int|
                0 <= q < i ==> #[trigger] keep@[q] == replay_touched(
                    outcomes@,
                    final_beliefs.map_view(),
                    belief_ids@[q]@,
                ),
        decreases belief_ids@.len() - i,
    {
        let id = belief_ids[i].as_str();
        let k = final_beliefs.get(id).is_some() || any_event_touches(outcomes, id);
        keep.push(k);
        i = i + 1;
    }
    keep
}

/// The counts in state `st` of the beliefs `beliefs`, added up.
pub open spec fn belief_sum(beliefs: Seq<Seq<char>>, records: Seq<(String, ForecastState)>, st: ForecastState) -> nat
    decreases beliefs.len(),
{
    if beliefs.len() == 0 {
        0
    } else {
        belief_sum(beliefs.drop_last(), records, st) + count_in(records, beliefs.last(), st)
    }
}

proof fn lemma_belief_sum_empty(beliefs: Seq<Seq<char>>, records: Seq<(String, ForecastState)>, st: ForecastState)
    requires
        records.len() == 0,
    ensures
        belief_sum(beliefs, records, st) == 0,
    decreases beliefs.len(),
{
    if beliefs.len() > 0 {
        lemma_belief_sum_empty(beliefs.drop_last(), records, st);
    }
}

proof fn lemma_belief_sum_step(beliefs: Seq<Seq<char>>, records: Seq<(String, ForecastState)>, st: ForecastState)
    requires
        records.len() > 0,
        forall|i: int, j: int| 0 <= i < j < beliefs.len() ==> beliefs[i] != beliefs[j],
    ensures
        belief_sum(beliefs, records, st) == belief_sum(beliefs, records.drop_last(), st) + if beliefs.contains(
            records.last().0@,
        ) && records.last().1 == st {
            1nat
        } else {
            0nat
        },
    decreases beliefs.len(),
{
    if beliefs.len() > 0 {
        let init = beliefs.drop_last();
        let x = records.last().0@;
        lemma_belief_sum_step(init, records, st);
        assert(beliefs.contains(x) <==> init.contains(x) || beliefs.last() == x) by {
            if beliefs.contains(x) {
                let q = choose|q: int| 0 <= q < beliefs.len() && beliefs[q] == x;
                if q < beliefs.len() - 1 {
                    assert(init[q] == x);
                }
            }
            if init.contains(x) {
                let q = choose|q: int| 0 <= q < init.len() && init[q] == x;
                assert(beliefs[q] == x);
            }
        }
        if init.contains(x) {
            let q = choose|q: int| 0 <= q < init.len() && init[q] == x;
            assert(beliefs[q] != beliefs[beliefs.len() - 1]);
        }
    }
}

proof fn lemma_record_mentioned(records: Seq<(String, ForecastState)>, k: int)
    requires
        0 <= k < records.len(),
    ensures
        mentions(records, records[k].0@) > 0,
    decreases records.len(),
{
    if k < records.len() - 1 {
        lemma_record_mentioned(records.drop_last(), k);
    }
}

proof fn lemma_beliefs_cover(beliefs: Seq<Seq<char>>, records: Seq<(String, ForecastState)>, st: ForecastState)
    requires
        forall|i: int, j: int| 0 <= i < j < beliefs.len() ==> beliefs[i] != beliefs[j],
        forall|i: int| 0 <= i < records.len() ==> beliefs.contains((#[trigger] records[i]).0@),
    ensures
        belief_sum(beliefs, records, st) == total_in(records, st),
    decreases records.len(),
{
    if records.len() > 0 {
        let init = records.drop_last();
        assert forall|i: int| 0 <= i < init.len() implies beliefs.contains((#[trigger] init[i]).0@) by {
            assert(init[i] == records[i]);
        }
        lemma_beliefs_cover(beliefs, init, st);
        lemma_belief_sum_step(beliefs, records, st);
        assert(beliefs.contains(records[records.len() - 1].0@));
    } else {
        lemma_belief_sum_empty(beliefs, records, st);
    }
}

/// The pooled counts are the sum of the per-belief counts: for the beliefs
/// the records mention, listed once each, their counts in each state add up
/// to the pooled count in that state.
pub proof fn law_pooled_counts_are_the_sum_of_the_beliefs(
    records: Seq<(String, ForecastState)>,
    beliefs: Seq<Seq<char>>,
    st: ForecastState,
)
    requires
        forall|i: int, j: int| 0 <= i < j < beliefs.len() ==> beliefs[i] != beliefs[j],
        forall|b: Seq<char>| #[trigger] beliefs.contains(b) <==> mentions(records, b) > 0,
    ensures
        belief_sum(beliefs, records, st) == total_in(records, st),
{
    assert forall|i: int| 0 <= i < records.len() implies beliefs.contains((#[trigger] records[i]).0@) by {
        lemma_record_mentioned(records, i);
    }
    lemma_beliefs_cover(beliefs, records, st);
}

} // verus!
