//! Cross-session source reliability: trust earned by outcomes. Each source
//! (the `source` of the events it emitted) is graded by the fate of the
//! claims it made in a finished replay — its acceptances the rest of the
//! trace invalidated, its escalations whose claim ended fine — one immutable
//! row per source per session. Rows from every session are summed per source
//! and pooled; the pooled totals are the baseline any per-source trust claim
//! must beat.

use vstd::prelude::*;
use crate::keymap::KeyMap;
use crate::metrics::{false_accepts_in, accept_was_invalidated, final_value};
use crate::research::{Action, HexValue, ResearchEventOutcome, ResearchEventPayload, primary_proposition};
use crate::text::{owned, strictly_ascending, string_views, lex_lt, compare_strs, KeyOrder, lemma_lex_transitive,
    lemma_lex_total, lemma_lex_irreflexive, lemma_lex_asymmetric};

verus! {

/// Schema of one persisted per-source, per-session row.
pub const SOURCE_OUTCOME_SCHEMA: &'static str = "hari-source-outcome-v0.1.0";

/// Schema of the aggregated report.
pub const SOURCE_RELIABILITY_REPORT_SCHEMA: &'static str = "hari-source-reliability-report-v0.1.0";

/// Minimum acceptances before a source may out-rank the pooled baseline.
pub const MIN_ACCEPTED_FOR_TRUST: u32 = 3;

/// Pseudo-count weight of the neutral prior in the smoothed precision.
pub const PRIOR_WEIGHT: u32 = 2;

/// The neutral prior mean, `1/2` — an unobserved source scores one half.
pub const PRIOR_MEAN_NUMERATOR: u32 = 1;

/// Denominator of the neutral prior mean.
pub const PRIOR_MEAN_DENOMINATOR: u32 = 2;

/// The margin, `1/20`, a source's smoothed precision must clear over the
/// pooled baseline's before it beats the baseline.
pub const TRUST_MARGIN_NUMERATOR: u32 = 1;

/// Denominator of the trust margin.
pub const TRUST_MARGIN_DENOMINATOR: u32 = 20;

/// The type of source a row is about; `Unknown` until traces carry it.
#[derive(Debug, Clone, Copy, PartialEq, Eq, Structural)]
pub enum SourceType {
    Agent,
    Model,
    Benchmark,
    Repo,
    Tool,
    ResearchDigest,
    HumanReview,
    IxAutoresearchRun,
    Unknown,
}

impl Default for SourceType {
    fn default() -> (r: Self)
        ensures
            r == SourceType::Unknown,
    {
        SourceType::Unknown
    }
}

/// One immutable per-source, per-session tally.
#[derive(Debug, Clone, PartialEq, Eq)]
pub struct SourceOutcomeRecord {
    pub schema: String,
    /// Which session produced this row.
    pub session_id: String,
    /// The source identity.
    pub source: String,
    pub source_type: SourceType,
    pub recorded_at: String,
    /// Belief-bearing events (claims, experiment results, votes) it emitted.
    pub claims: u32,
    /// `Accept` actions emitted on its events.
    pub accepted: u32,
    /// Of those, the ones the rest of the trace invalidated.
    pub false_acceptances: u32,
    /// `Escalate` actions on its events that name a proposition.
    pub escalations: u32,
    /// Of those, the ones whose proposition ended `True` or `Probable`.
    pub false_escalations: u32,
}

/// The payload carries a claim with a value.
pub open spec fn belief_bearing(p: ResearchEventPayload) -> bool {
    p is BeliefUpdate || p is ExperimentResult || p is AgentVote
}

/// How many `Accept` actions the list holds.
pub open spec fn accept_count(actions: Seq<Action>) -> nat
    decreases actions.len(),
{
    if actions.len() == 0 {
        0
    } else {
        accept_count(actions.drop_last()) + if actions.last() is Accept {
            1nat
        } else {
            0nat
        }
    }
}

/// How many `Escalate` actions the list holds.
pub open spec fn escalate_count(actions: Seq<Action>) -> nat
    decreases actions.len(),
{
    if actions.len() == 0 {
        0
    } else {
        escalate_count(actions.drop_last()) + if actions.last() is Escalate {
            1nat
        } else {
            0nat
        }
    }
}

/// One outcome's contribution to its source's row: claims, acceptances,
/// invalidated acceptances, attributable escalations, and escalations whose
/// proposition ended fine.
pub open spec fn outcome_counts(
    o: ResearchEventOutcome,
    all: Seq<ResearchEventOutcome>,
    fb: Map<Seq<char>, HexValue>,
) -> (nat, nat, nat, nat, nat) {
    let esc = if primary_proposition(o.event.payload) is Some {
        escalate_count(o.actions@)
    } else {
        0nat
    };
    let fesc = match primary_proposition(o.event.payload) {
        Some(p) => if final_value(fb, p) matches Some(v) && v.affirms() {
            escalate_count(o.actions@)
        } else {
            0nat
        },
        None => 0nat,
    };
    (
        if belief_bearing(o.event.payload) { 1nat } else { 0nat },
        accept_count(o.actions@),
        false_accepts_in(o.actions@, o.event.cycle, all, fb),
        esc,
        fesc,
    )
}

/// Source `s`'s tallies over the outcomes of `prefix`, each resolved against
/// the whole trace `all`.
pub open spec fn source_counts(
    prefix: Seq<ResearchEventOutcome>,
    s: Seq<char>,
    all: Seq<ResearchEventOutcome>,
    fb: Map<Seq<char>, HexValue>,
) -> (nat, nat, nat, nat, nat)
    decreases prefix.len(),
{
    if prefix.len() == 0 {
        (0, 0, 0, 0, 0)
    } else {
        let c = source_counts(prefix.drop_last(), s, all, fb);
        let o = prefix.last();
        if o.event.source@ == s {
            let d = outcome_counts(o, all, fb);
            (c.0 + d.0, c.1 + d.1, c.2 + d.2, c.3 + d.3, c.4 + d.4)
        } else {
            c
        }
    }
}

proof fn lemma_counts_are_filters(a: Seq<Action>)
    ensures
        accept_count(a) == a.filter(|x: Action| x is Accept).len(),
        escalate_count(a) == a.filter(|x: Action| x is Escalate).len(),
    decreases a.len(),
{
    reveal(Seq::filter);
    if a.len() > 0 {
        lemma_counts_are_filters(a.drop_last());
    }
}

/// Each event counts toward its own source only: claims one per belief
/// update, experiment result or vote, acceptances one per `Accept` action,
/// escalations one per `Escalate` action on an event that names a
/// proposition. A source has no counts over no events, and each further
/// event adds exactly these to its source's row and nothing to another's.
pub proof fn law_each_claim_counts_once(
    prefix: Seq<ResearchEventOutcome>,
    o: ResearchEventOutcome,
    s: Seq<char>,
    all: Seq<ResearchEventOutcome>,
    fb: Map<Seq<char>, HexValue>,
)
    ensures
        source_counts(Seq::empty(), s, all, fb).0 == 0,
        source_counts(prefix.push(o), s, all, fb).0 == source_counts(prefix, s, all, fb).0 + if o.event.source@
            == s && (o.event.payload is BeliefUpdate || o.event.payload is ExperimentResult
            || o.event.payload is AgentVote) {
            1nat
        } else {
            0nat
        },
        source_counts(Seq::empty(), s, all, fb).1 == 0,
        source_counts(prefix.push(o), s, all, fb).1 == source_counts(prefix, s, all, fb).1 + if o.event.source@
            == s {
            o.actions@.filter(|x: Action| x is Accept).len()
        } else {
            0nat
        },
        source_counts(Seq::empty(), s, all, fb).3 == 0,
        source_counts(prefix.push(o), s, all, fb).3 == source_counts(prefix, s, all, fb).3 + if o.event.source@
            == s && primary_proposition(o.event.payload) is Some {
            o.actions@.filter(|x: Action| x is Escalate).len()
        } else {
            0nat
        },
{
    assert(prefix.push(o).drop_last() =~= prefix);
    lemma_counts_are_filters(o.actions@);
}

/// A source gets a row when it made a claim, drew an acceptance, or drew an
/// escalation attributable to a proposition.
pub open spec fn has_row(c: (nat, nat, nat, nat, nat)) -> bool {
    c.0 + c.1 + c.3 > 0
}


/// The sources of a list of rows, in order.
pub open spec fn row_sources(rows: Seq<SourceOutcomeRecord>) -> Seq<Seq<char>> {
    rows.map_values(|r: SourceOutcomeRecord| r.source@)
}

/// A running per-source tally.
#[derive(Debug, Clone, Copy, PartialEq, Eq, Structural)]
struct Tally {
    claims: u32,
    accepted: u32,
    false_acceptances: u32,
    escalations: u32,
    false_escalations: u32,
}

spec fn tally_view(t: Tally) -> (nat, nat, nat, nat, nat) {
    (t.claims as nat, t.accepted as nat, t.false_acceptances as nat, t.escalations as nat, t.false_escalations as nat)
}

proof fn lemma_action_counts_bound(a: Seq<Action>)
    ensures
        accept_count(a) <= a.len(),
        escalate_count(a) <= a.len(),
    decreases a.len(),
{
    if a.len() > 0 {
        lemma_action_counts_bound(a.drop_last());
    }
}

proof fn lemma_false_accepts_bound(
    a: Seq<Action>,
    cycle: u64,
    all: Seq<ResearchEventOutcome>,
    fb: Map<Seq<char>, HexValue>,
)
    ensures
        false_accepts_in(a, cycle, all, fb) <= accept_count(a),
    decreases a.len(),
{
    if a.len() > 0 {
        lemma_false_accepts_bound(a.drop_last(), cycle, all, fb);
    }
}

fn outcome_tally(
    o: &ResearchEventOutcome,
    outcomes: &[ResearchEventOutcome],
    final_beliefs: &KeyMap<HexValue>,
) -> (t: Tally)
    requires
        final_beliefs.wf(),
        o.actions@.len() <= u32::MAX,
    ensures
        tally_view(t) == outcome_counts(*o, outcomes@, final_beliefs.map_view()),
{
    let acts = &o.actions;
    let mut acc: u32 = 0;
    let mut fa: u32 = 0;
    let mut esc: u32 = 0;
    let mut i: usize = 0;
    while i < acts.len()
        invariant
            final_beliefs.wf(),
            acts@.len() <= u32::MAX,
            i <= acts@.len(),
            acc == accept_count(acts@.take(i as int)),
            fa == false_accepts_in(acts@.take(i as int), o.event.cycle, outcomes@, final_beliefs.map_view()),
            esc == escalate_count(acts@.take(i as int)),
            acc <= i && fa <= acc && esc <= i,
        decreases acts@.len() - i,
    {
        proof {
            assert(acts@.take(i + 1).drop_last() =~= acts@.take(i as int));
        }
        match &acts[i] {
            Action::Accept { proposition, value } => {
                acc = acc + 1;
                if accept_was_invalidated(proposition.as_str(), *value, o.event.cycle, outcomes, final_beliefs) {
                    fa = fa + 1;
                }
            },
            Action::Escalate { .. } => {
                esc = esc + 1;
            },
            _ => {},
        }
        i = i + 1;
    }
    proof {
        assert(acts@.take(acts@.len() as int) =~= acts@);
    }
    let bb = match &o.event.payload {
        ResearchEventPayload::BeliefUpdate { .. } | ResearchEventPayload::ExperimentResult { .. }
        | ResearchEventPayload::AgentVote { .. } => 1u32,
        _ => 0u32,
    };
    let (e, fe) = match o.event.payload.proposition() {
        Some(p) => {
            let fine = match final_beliefs.get(p.as_str()) {
                Some(HexValue::True) | Some(HexValue::Probable) => true,
                _ => false,
            };
            (esc, if fine { esc } else { 0 })
        },
        None => (0, 0),
    };
    Tally { claims: bb, accepted: acc, false_acceptances: fa, escalations: e, false_escalations: fe }
}

proof fn lemma_source_counts_step(
    all: Seq<ResearchEventOutcome>,
    i: int,
    s: Seq<char>,
    fb: Map<Seq<char>, HexValue>,
)
    requires
        0 <= i < all.len(),
    ensures
        source_counts(all.take(i + 1), s, all, fb) == if all[i].event.source@ == s {
            let c = source_counts(all.take(i), s, all, fb);
            let d = outcome_counts(all[i], all, fb);
            (c.0 + d.0, c.1 + d.1, c.2 + d.2, c.3 + d.3, c.4 + d.4)
        } else {
            source_counts(all.take(i), s, all, fb)
        },
{
    assert(all.take(i + 1).drop_last() =~= all.take(i));
}

/// Bounds of a source's tallies: claims by the outcome count, the rest by the
/// action count, and each "false" count by the count it refines.
spec fn counts_bounded(c: (nat, nat, nat, nat, nat), n: nat, a: nat) -> bool {
    c.0 <= n && c.1 <= a && c.2 <= c.1 && c.3 <= a && c.4 <= c.3
}

proof fn lemma_source_counts_bound(
    prefix: Seq<ResearchEventOutcome>,
    s: Seq<char>,
    all: Seq<ResearchEventOutcome>,
    fb: Map<Seq<char>, HexValue>,
)
    ensures
        counts_bounded(source_counts(prefix, s, all, fb), prefix.len(), crate::metrics::action_total(prefix)),
    decreases prefix.len(),
{
    if prefix.len() > 0 {
        lemma_source_counts_bound(prefix.drop_last(), s, all, fb);
        let o = prefix.last();
        lemma_action_counts_bound(o.actions@);
        lemma_false_accepts_bound(o.actions@, o.event.cycle, all, fb);
    }
}

/// Fold one finished replay into per-source rows, ascending by source. A
/// source gets a row when it made a claim, drew an `Accept`, or drew an
/// escalation attributable to a proposition; acceptances are judged by the
/// same invalidation rule as the replay's false-acceptance count.
pub fn outcomes_from_report(
    session_id: &str,
    recorded_at: &str,
    outcomes: &[ResearchEventOutcome],
    final_beliefs: &KeyMap<HexValue>,
) -> (rows: Vec<SourceOutcomeRecord>)
    requires
        final_beliefs.wf(),
        outcomes@.len() <= u32::MAX,
        crate::metrics::action_total(outcomes@) <= u32::MAX,
    ensures
        strictly_ascending(row_sources(rows@)),
        forall|s: Seq<char>|
            #[trigger] row_sources(rows@).contains(s) <==> has_row(
                source_counts(outcomes@, s, outcomes@, final_beliefs.map_view()),
            ),
        forall|i: int| 0 <= i < rows@.len() ==> {
            let r = #[trigger] rows@[i];
            let c = source_counts(outcomes@, r.source@, outcomes@, final_beliefs.map_view());
            &&& r.schema@ == SOURCE_OUTCOME_SCHEMA@
            &&& r.session_id@ == session_id@
            &&& r.recorded_at@ == recorded_at@
            &&& r.source_type == SourceType::Unknown
            &&& r.claims == c.0 && r.accepted == c.1 && r.false_acceptances == c.2
            &&& r.escalations == c.3 && r.false_escalations == c.4
        },
{
    let ghost fb = final_beliefs.map_view();
    let ghost all = outcomes@;
    let mut by_source: KeyMap<Tally> = KeyMap::new();
    let mut i: usize = 0;
    while i < outcomes.len()
        invariant
            final_beliefs.wf(),
            fb == final_beliefs.map_view(),
            all == outcomes@,
            all.len() <= u32::MAX,
            crate::metrics::action_total(all) <= u32::MAX,
            i <= all.len(),
            by_source.wf(),
            forall|s: Seq<char>| #[trigger] by_source.map_view().contains_key(s) <==> has_row(
                source_counts(all.take(i as int), s, all, fb),
            ),
            forall|s: Seq<char>| #[trigger] by_source.map_view().contains_key(s) ==> tally_view(by_source.map_view()[s])
                == source_counts(all.take(i as int), s, all, fb),
        decreases all.len() - i,
    {
        let o = &outcomes[i];
        proof {
            assert(all.take(i + 1).drop_last() =~= all.take(i as int));
            crate::metrics::lemma_action_total_mono_pub(all, i + 1, all.len() as int);
            assert(all.take(all.len() as int) =~= all);
            assert(o.actions@.len() <= crate::metrics::action_total(all.take(i + 1)));
            lemma_source_counts_bound(all.take(i + 1), o.event.source@, all, fb);
            lemma_source_counts_step(all, i as int, o.event.source@, fb);
        }
        let d = outcome_tally(o, outcomes, final_beliefs);
        if d.claims > 0 || d.accepted > 0 || d.escalations > 0 {
            let cur = match by_source.get(o.event.source.as_str()) {
                Some(t) => *t,
                None => Tally { claims: 0, accepted: 0, false_acceptances: 0, escalations: 0, false_escalations: 0 },
            };
            let next = Tally {
                claims: cur.claims + d.claims,
                accepted: cur.accepted + d.accepted,
                false_acceptances: cur.false_acceptances + d.false_acceptances,
                escalations: cur.escalations + d.escalations,
                false_escalations: cur.false_escalations + d.false_escalations,
            };
            by_source.insert(o.event.source.clone(), next);
        }
        proof {
            assert forall|s: Seq<char>| #[trigger] by_source.map_view().contains_key(s) <==> has_row(
                source_counts(all.take(i + 1), s, all, fb),
            ) by {
                lemma_source_counts_step(all, i as int, s, fb);
            }
            assert forall|s: Seq<char>| #[trigger] by_source.map_view().contains_key(s) implies tally_view(by_source.map_view()[s])
                == source_counts(all.take(i + 1), s, all, fb) by {
                lemma_source_counts_step(all, i as int, s, fb);
                lemma_source_counts_bound(all.take(i as int), s, all, fb);
                lemma_false_accepts_bound(o.actions@, o.event.cycle, all, fb);
            }
        }
        i = i + 1;
    }
    proof {
        assert(all.take(all.len() as int) =~= all);
    }
    let n = by_source.len();
    let mut rows: Vec<SourceOutcomeRecord> = Vec::new();
    let keys = by_source.keys();
    let ghost kv = string_views(keys@);
    let mut k: usize = 0;
    while k < keys.len()
        invariant
            final_beliefs.wf(),
            fb == final_beliefs.map_view(),
            all == outcomes@,
            by_source.wf(),
            kv == string_views(keys@),
            strictly_ascending(kv),
            forall|p: Seq<char>| kv.contains(p) <==> #[trigger] by_source.map_view().contains_key(p),
            forall|s: Seq<char>| #[trigger] by_source.map_view().contains_key(s) ==> tally_view(by_source.map_view()[s])
                == source_counts(all, s, all, fb),
            k <= kv.len(),
            row_sources(rows@) == kv.take(k as int),
            forall|i: int| 0 <= i < rows@.len() ==> {
                let r = #[trigger] rows@[i];
                let c = source_counts(all, r.source@, all, fb);
                &&& r.schema@ == SOURCE_OUTCOME_SCHEMA@
                &&& r.session_id@ == session_id@
                &&& r.recorded_at@ == recorded_at@
                &&& r.source_type == SourceType::Unknown
                &&& r.claims == c.0 && r.accepted == c.1 && r.false_acceptances == c.2
                &&& r.escalations == c.3 && r.false_escalations == c.4
            },
        decreases kv.len() - k,
    {
        let name = &keys[k];
        proof {
            assert(kv[k as int] == name@);
            assert(kv.contains(name@));
        }
        let t = match by_source.get(name.as_str()) {
            Some(t) => *t,
            None => Tally { claims: 0, accepted: 0, false_acceptances: 0, escalations: 0, false_escalations: 0 },
        };
        let ghost before = rows@;
        rows.push(SourceOutcomeRecord {
            schema: owned(SOURCE_OUTCOME_SCHEMA),
            session_id: owned(session_id),
            source: name.clone(),
            source_type: SourceType::Unknown,
            recorded_at: owned(recorded_at),
            claims: t.claims,
            accepted: t.accepted,
            false_acceptances: t.false_acceptances,
            escalations: t.escalations,
            false_escalations: t.false_escalations,
        });
        proof {
            assert(row_sources(rows@) =~= row_sources(before).push(name@));
            assert(kv.take(k + 1) =~= kv.take(k as int).push(kv[k as int]));
        }
        k = k + 1;
    }
    proof {
        assert(kv.take(kv.len() as int) =~= kv);
        assert forall|s: Seq<char>|
            #[trigger] row_sources(rows@).contains(s) <==> has_row(
                source_counts(outcomes@, s, outcomes@, final_beliefs.map_view()),
            ) by {
            assert(kv.contains(s) <==> by_source.map_view().contains_key(s));
        }
    }
    rows
}


/// Summed tallies for one bucket (a single source, or all of them pooled).
/// The report's precision and rates are ratios of these.
#[derive(Debug, Clone, Copy, PartialEq, Eq, Structural)]
pub struct SourceTotals {
    /// Rows (sessions) contributing.
    pub sessions: usize,
    pub claims: u32,
    pub accepted: u32,
    pub false_acceptances: u32,
    pub escalations: u32,
    pub false_escalations: u32,
}

/// The pooled totals and the per-source totals of a ledger.
#[derive(Debug, Clone, PartialEq, Eq)]
pub struct SourceReport {
    /// Ledger rows ingested.
    pub rows: usize,
    /// All sources pooled — the baseline.
    pub pooled: SourceTotals,
    /// Per source, ascending.
    pub by_source: KeyMap<SourceTotals>,
}

/// The row belongs to the bucket: `None` is the pooled bucket.
pub open spec fn in_bucket(r: SourceOutcomeRecord, bucket: Option<Seq<char>>) -> bool {
    match bucket {
        None => true,
        Some(s) => r.source@ == s,
    }
}

/// A bucket's sums over `rows`: sessions, claims, acceptances, invalidated
/// acceptances, escalations, unwarranted escalations.
pub open spec fn row_sums(rows: Seq<SourceOutcomeRecord>, bucket: Option<Seq<char>>) -> (nat, nat, nat, nat, nat, nat)
    decreases rows.len(),
{
    if rows.len() == 0 {
        (0, 0, 0, 0, 0, 0)
    } else {
        let c = row_sums(rows.drop_last(), bucket);
        let r = rows.last();
        if in_bucket(r, bucket) {
            (
                c.0 + 1,
                c.1 + r.claims as nat,
                c.2 + r.accepted as nat,
                c.3 + r.false_acceptances as nat,
                c.4 + r.escalations as nat,
                c.5 + r.false_escalations as nat,
            )
        } else {
            c
        }
    }
}

/// Totals equal to a bucket's sums.
pub open spec fn totals_are(t: SourceTotals, c: (nat, nat, nat, nat, nat, nat)) -> bool {
    t.sessions == c.0 && t.claims == c.1 && t.accepted == c.2 && t.false_acceptances == c.3 && t.escalations
        == c.4 && t.false_escalations == c.5
}

/// The pooled sums fit the counters.
pub open spec fn sums_fit(c: (nat, nat, nat, nat, nat, nat)) -> bool {
    c.1 <= u32::MAX && c.2 <= u32::MAX && c.3 <= u32::MAX && c.4 <= u32::MAX && c.5 <= u32::MAX
}

proof fn lemma_row_sums_step(rows: Seq<SourceOutcomeRecord>, i: int, bucket: Option<Seq<char>>)
    requires
        0 <= i < rows.len(),
    ensures
        row_sums(rows.take(i + 1), bucket) == if in_bucket(rows[i], bucket) {
            let c = row_sums(rows.take(i), bucket);
            (
                c.0 + 1,
                c.1 + rows[i].claims as nat,
                c.2 + rows[i].accepted as nat,
                c.3 + rows[i].false_acceptances as nat,
                c.4 + rows[i].escalations as nat,
                c.5 + rows[i].false_escalations as nat,
            )
        } else {
            row_sums(rows.take(i), bucket)
        },
{
    assert(rows.take(i + 1).drop_last() =~= rows.take(i));
}

proof fn lemma_bucket_le_pool(rows: Seq<SourceOutcomeRecord>, s: Seq<char>)
    ensures
        row_sums(rows, Some(s)).0 <= row_sums(rows, None).0,
        row_sums(rows, Some(s)).1 <= row_sums(rows, None).1,
        row_sums(rows, Some(s)).2 <= row_sums(rows, None).2,
        row_sums(rows, Some(s)).3 <= row_sums(rows, None).3,
        row_sums(rows, Some(s)).4 <= row_sums(rows, None).4,
        row_sums(rows, Some(s)).5 <= row_sums(rows, None).5,
        row_sums(rows, None).0 == rows.len(),
    decreases rows.len(),
{
    if rows.len() > 0 {
        lemma_bucket_le_pool(rows.drop_last(), s);
    }
}

proof fn lemma_row_sums_mono(rows: Seq<SourceOutcomeRecord>, i: int, j: int, bucket: Option<Seq<char>>)
    requires
        0 <= i <= j <= rows.len(),
    ensures
        row_sums(rows.take(i), bucket).1 <= row_sums(rows.take(j), bucket).1,
        row_sums(rows.take(i), bucket).2 <= row_sums(rows.take(j), bucket).2,
        row_sums(rows.take(i), bucket).3 <= row_sums(rows.take(j), bucket).3,
        row_sums(rows.take(i), bucket).4 <= row_sums(rows.take(j), bucket).4,
        row_sums(rows.take(i), bucket).5 <= row_sums(rows.take(j), bucket).5,
    decreases j - i,
{
    if i < j {
        lemma_row_sums_mono(rows, i, j - 1, bucket);
        lemma_row_sums_step(rows, j - 1, bucket);
    }
}

fn add_row(t: SourceTotals, r: &SourceOutcomeRecord) -> (u: SourceTotals)
    requires
        t.sessions < usize::MAX,
        t.claims + r.claims <= u32::MAX,
        t.accepted + r.accepted <= u32::MAX,
        t.false_acceptances + r.false_acceptances <= u32::MAX,
        t.escalations + r.escalations <= u32::MAX,
        t.false_escalations + r.false_escalations <= u32::MAX,
    ensures
        u.sessions == t.sessions + 1,
        u.claims == t.claims + r.claims,
        u.accepted == t.accepted + r.accepted,
        u.false_acceptances == t.false_acceptances + r.false_acceptances,
        u.escalations == t.escalations + r.escalations,
        u.false_escalations == t.false_escalations + r.false_escalations,
{
    SourceTotals {
        sessions: t.sessions + 1,
        claims: t.claims + r.claims,
        accepted: t.accepted + r.accepted,
        false_acceptances: t.false_acceptances + r.false_acceptances,
        escalations: t.escalations + r.escalations,
        false_escalations: t.false_escalations + r.false_escalations,
    }
}

/// Sum ledger rows into pooled and per-source totals.
pub fn report_totals(rows: &[SourceOutcomeRecord]) -> (r: SourceReport)
    requires
        sums_fit(row_sums(rows@, None)),
    ensures
        r.rows == rows@.len(),
        totals_are(r.pooled, row_sums(rows@, None)),
        r.by_source.wf(),
        forall|s: Seq<char>| #[trigger] r.by_source.map_view().contains_key(s) <==> row_sums(rows@, Some(s)).0 > 0,
        forall|s: Seq<char>| #[trigger] r.by_source.map_view().contains_key(s) ==> totals_are(
            r.by_source.map_view()[s],
            row_sums(rows@, Some(s)),
        ),
{
    let zero = SourceTotals { sessions: 0, claims: 0, accepted: 0, false_acceptances: 0, escalations: 0, false_escalations: 0 };
    let mut pooled = zero;
    let mut by_source: KeyMap<SourceTotals> = KeyMap::new();
    let mut i: usize = 0;
    while i < rows.len()
        invariant
            sums_fit(row_sums(rows@, None)),
            i <= rows@.len(),
            zero == (SourceTotals { sessions: 0, claims: 0, accepted: 0, false_acceptances: 0, escalations: 0, false_escalations: 0 }),
            totals_are(pooled, row_sums(rows@.take(i as int), None)),
            by_source.wf(),
            forall|s: Seq<char>| #[trigger] by_source.map_view().contains_key(s) <==> row_sums(rows@.take(i as int), Some(s)).0 > 0,
            forall|s: Seq<char>| #[trigger] by_source.map_view().contains_key(s) ==> totals_are(
                by_source.map_view()[s],
                row_sums(rows@.take(i as int), Some(s)),
            ),
        decreases rows@.len() - i,
    {
        let r = &rows[i];
        proof {
            lemma_row_sums_step(rows@, i as int, None);
            lemma_row_sums_step(rows@, i as int, Some(r.source@));
            lemma_row_sums_mono(rows@, i + 1, rows@.len() as int, None);
            assert(rows@.take(rows@.len() as int) =~= rows@);
            lemma_bucket_le_pool(rows@.take(i as int), r.source@);
            lemma_bucket_le_pool(rows@.take(i + 1), r.source@);
        }
        pooled = add_row(pooled, r);
        let cur = match by_source.get(r.source.as_str()) {
            Some(t) => *t,
            None => zero,
        };
        proof {
            if !by_source.map_view().contains_key(r.source@) {
                assert(row_sums(rows@.take(i as int), Some(r.source@)).0 == 0);
                lemma_zero_bucket(rows@.take(i as int), r.source@);
            }
        }
        let next = add_row(cur, r);
        by_source.insert(r.source.clone(), next);
        proof {
            assert forall|s: Seq<char>| #[trigger] by_source.map_view().contains_key(s) <==> row_sums(rows@.take(i + 1), Some(s)).0 > 0 by {
                lemma_row_sums_step(rows@, i as int, Some(s));
            }
            assert forall|s: Seq<char>| #[trigger] by_source.map_view().contains_key(s) implies totals_are(
                by_source.map_view()[s],
                row_sums(rows@.take(i + 1), Some(s)),
            ) by {
                lemma_row_sums_step(rows@, i as int, Some(s));
            }
        }
        i = i + 1;
    }
    proof {
        assert(rows@.take(rows@.len() as int) =~= rows@);
    }
    SourceReport { rows: rows.len(), pooled, by_source }
}

proof fn lemma_zero_bucket(rows: Seq<SourceOutcomeRecord>, s: Seq<char>)
    requires
        row_sums(rows, Some(s)).0 == 0,
    ensures
        row_sums(rows, Some(s)) == (0nat, 0nat, 0nat, 0nat, 0nat, 0nat),
    decreases rows.len(),
{
    if rows.len() > 0 {
        lemma_zero_bucket(rows.drop_last(), s);
    }
}


/// Accepted claims that held up: acceptances less invalidated ones, floored
/// at zero.
pub open spec fn correct_of(t: SourceTotals) -> int {
    if t.accepted >= t.false_acceptances {
        t.accepted - t.false_acceptances
    } else {
        0
    }
}

/// Numerator of the prior-smoothed precision
/// `(correct + weight · mean) / (accepted + weight)`, over the denominator
/// [`smoothed_den`].
pub open spec fn smoothed_num(t: SourceTotals) -> int {
    correct_of(t) * PRIOR_MEAN_DENOMINATOR + PRIOR_WEIGHT * PRIOR_MEAN_NUMERATOR
}

/// Denominator of the prior-smoothed precision.
pub open spec fn smoothed_den(t: SourceTotals) -> int {
    (t.accepted + PRIOR_WEIGHT) * PRIOR_MEAN_DENOMINATOR
}

/// The source has earned trust above the pool: enough acceptances, and a
/// smoothed precision at least the pool's plus the trust margin.
///
/// The comparison is on exact fractions, so a source exactly at the margin
/// beats the pool, as "by at least the margin" says. A floating-point sum of
/// the pool's precision and the margin can round above the source's own
/// precision and refuse such a source: a pool with 10 of 18 acceptances
/// correct (smoothed 11/20) against a source with 2 of 3 (smoothed 3/5) is
/// one, and that source beats the pool here.
pub open spec fn beats_pool(t: SourceTotals, pooled: SourceTotals) -> bool {
    &&& t.accepted >= MIN_ACCEPTED_FOR_TRUST
    &&& smoothed_num(t) * smoothed_den(pooled) * TRUST_MARGIN_DENOMINATOR >= smoothed_num(pooled) * smoothed_den(t)
        * TRUST_MARGIN_DENOMINATOR + TRUST_MARGIN_NUMERATOR * smoothed_den(t) * smoothed_den(pooled)
}

/// `x` is one of the first `n` of `rs`.
pub open spec fn among_first(x: SourceEntrenchment, rs: Seq<SourceEntrenchment>, n: int) -> bool {
    exists|q: int| 0 <= q < n && rs[q] == x
}

/// One rung of the entrenchment ordering: a source, its earned smoothed
/// precision as a fraction, and whether it beats the pooled baseline.
#[derive(Debug, Clone, PartialEq, Eq)]
pub struct SourceEntrenchment {
    pub source: String,
    pub accepted: u32,
    pub smoothed_numerator: u64,
    pub smoothed_denominator: u64,
    pub beats_pooled_baseline: bool,
}

/// Rung `a` ranks above rung `b`: a higher smoothed precision, or an equal
/// one and a smaller source id.
pub open spec fn ranks_before(a: SourceEntrenchment, b: SourceEntrenchment) -> bool {
    a.smoothed_numerator * b.smoothed_denominator > b.smoothed_numerator * a.smoothed_denominator
        || (a.smoothed_numerator * b.smoothed_denominator == b.smoothed_numerator * a.smoothed_denominator
        && lex_lt(a.source@, b.source@))
}

/// The rung is the one the totals of its source give.
pub open spec fn rung_of(e: SourceEntrenchment, t: SourceTotals, pooled: SourceTotals) -> bool {
    &&& e.accepted == t.accepted
    &&& e.smoothed_numerator == smoothed_num(t)
    &&& e.smoothed_denominator == smoothed_den(t)
    &&& e.beats_pooled_baseline == beats_pool(t, pooled)
}

fn smoothed_parts(t: &SourceTotals) -> (r: (u64, u64))
    ensures
        r.0 == smoothed_num(*t),
        r.1 == smoothed_den(*t),
        r.1 > 0,
{
    let correct: u64 = if t.accepted >= t.false_acceptances {
        (t.accepted - t.false_acceptances) as u64
    } else {
        0
    };
    let num = correct * (PRIOR_MEAN_DENOMINATOR as u64) + (PRIOR_WEIGHT as u64) * (PRIOR_MEAN_NUMERATOR as u64);
    let den = (t.accepted as u64 + PRIOR_WEIGHT as u64) * (PRIOR_MEAN_DENOMINATOR as u64);
    (num, den)
}

fn beats_pooled(t: &SourceTotals, pooled: &SourceTotals) -> (r: bool)
    ensures
        r == beats_pool(*t, *pooled),
{
    let (n1, d1) = smoothed_parts(t);
    let (n0, d0) = smoothed_parts(pooled);
    let tn = TRUST_MARGIN_NUMERATOR as u128;
    let td = TRUST_MARGIN_DENOMINATOR as u128;
    proof {
        assert(n1 <= 0x2_0000_0002 && d1 <= 0x2_0000_0004 && n0 <= 0x2_0000_0002 && d0 <= 0x2_0000_0004);
        assert((n1 as u128) * (d0 as u128) * td <= 0x2_0000_0002u128 * 0x2_0000_0004u128 * 20) by (nonlinear_arith)
            requires n1 <= 0x2_0000_0002, d0 <= 0x2_0000_0004, td == 20;
        assert((n0 as u128) * (d1 as u128) * td <= 0x2_0000_0002u128 * 0x2_0000_0004u128 * 20) by (nonlinear_arith)
            requires n0 <= 0x2_0000_0002, d1 <= 0x2_0000_0004, td == 20;
        assert(tn * (d1 as u128) * (d0 as u128) <= 0x2_0000_0004u128 * 0x2_0000_0004u128) by (nonlinear_arith)
            requires d0 <= 0x2_0000_0004, d1 <= 0x2_0000_0004, tn == 1;
    }
    t.accepted >= MIN_ACCEPTED_FOR_TRUST && (n1 as u128) * (d0 as u128) * td >= (n0 as u128) * (d1 as u128) * td
        + tn * (d1 as u128) * (d0 as u128)
}

fn rank_before(a: &SourceEntrenchment, b: &SourceEntrenchment) -> (r: bool)
    ensures
        r == ranks_before(*a, *b),
{
    proof {
        let (an, ad, bn, bd) = (a.smoothed_numerator as u128, a.smoothed_denominator as u128, b.smoothed_numerator as u128, b.smoothed_denominator as u128);
        assert(an * bd <= 0xffff_ffff_ffff_ffffu128 * 0xffff_ffff_ffff_ffffu128) by (nonlinear_arith)
            requires an <= 0xffff_ffff_ffff_ffffu128, bd <= 0xffff_ffff_ffff_ffffu128;
        assert(bn * ad <= 0xffff_ffff_ffff_ffffu128 * 0xffff_ffff_ffff_ffffu128) by (nonlinear_arith)
            requires bn <= 0xffff_ffff_ffff_ffffu128, ad <= 0xffff_ffff_ffff_ffffu128;
    }
    let x = (a.smoothed_numerator as u128) * (b.smoothed_denominator as u128);
    let y = (b.smoothed_numerator as u128) * (a.smoothed_denominator as u128);
    proof {
        assert(x == a.smoothed_numerator * b.smoothed_denominator);
        assert(y == b.smoothed_numerator * a.smoothed_denominator);
    }
    x > y || (x == y && compare_strs(a.source.as_str(), b.source.as_str()) == KeyOrder::Less)
}

proof fn lemma_ranks_transitive(a: SourceEntrenchment, b: SourceEntrenchment, c: SourceEntrenchment)
    requires
        a.smoothed_denominator > 0,
        b.smoothed_denominator > 0,
        c.smoothed_denominator > 0,
        ranks_before(a, b),
        ranks_before(b, c),
    ensures
        ranks_before(a, c),
{
    let (na, da, nb, db, nc, dc) = (
        a.smoothed_numerator as int,
        a.smoothed_denominator as int,
        b.smoothed_numerator as int,
        b.smoothed_denominator as int,
        c.smoothed_numerator as int,
        c.smoothed_denominator as int,
    );
    assert(na * db >= nb * da);
    assert(nb * dc >= nc * db);
    assert(na * dc * db >= nc * da * db) by (nonlinear_arith)
        requires
            na * db >= nb * da,
            nb * dc >= nc * db,
            da > 0,
            db > 0,
            dc > 0,
    ;
    assert(na * dc >= nc * da) by (nonlinear_arith)
        requires
            na * dc * db >= nc * da * db,
            db > 0,
    ;
    if na * dc == nc * da {
        assert(na * db == nb * da && nb * dc == nc * db) by (nonlinear_arith)
            requires
                na * db >= nb * da,
                nb * dc >= nc * db,
                na * dc == nc * da,
                da > 0,
                db > 0,
                dc > 0,
        ;
        lemma_lex_transitive(a.source@, b.source@, c.source@);
    }
}

proof fn lemma_ranks_total(a: SourceEntrenchment, b: SourceEntrenchment)
    requires
        a.source@ != b.source@,
    ensures
        ranks_before(a, b) || ranks_before(b, a),
        !(ranks_before(a, b) && ranks_before(b, a)),
{
    lemma_lex_total(a.source@, b.source@);
    lemma_lex_asymmetric(a.source@, b.source@);
}

/// The entrenchment ordering: every source ranked by earned smoothed
/// precision, highest first, ties broken by source id; each rung says
/// whether its source beats the pooled baseline.
pub fn entrenchment(report: &SourceReport) -> (r: Vec<SourceEntrenchment>)
    requires
        report.by_source.wf(),
    ensures
        r@.len() == report.by_source.map_view().dom().len(),
        forall|i: int| 0 <= i < r@.len() ==> #[trigger] report.by_source.map_view().contains_key(r@[i].source@)
            && rung_of(r@[i], report.by_source.map_view()[r@[i].source@], report.pooled),
        forall|s: Seq<char>| #[trigger] report.by_source.map_view().contains_key(s) ==> exists|i: int|
            0 <= i < r@.len() && r@[i].source@ == s,
        forall|i: int, j: int| 0 <= i < j < r@.len() ==> ranks_before(#[trigger] r@[i], #[trigger] r@[j]),
{
    let ghost m = report.by_source.map_view();
    let keys = report.by_source.keys();
    let ghost kv = string_views(keys@);
    let mut rungs: Vec<SourceEntrenchment> = Vec::new();
    let mut k: usize = 0;
    while k < keys.len()
        invariant
            report.by_source.wf(),
            m == report.by_source.map_view(),
            kv == string_views(keys@),
            strictly_ascending(kv),
            forall|p: Seq<char>| kv.contains(p) <==> #[trigger] m.contains_key(p),
            k <= kv.len(),
            rungs@.len() == k,
            forall|i: int| 0 <= i < k ==> (#[trigger] rungs@[i]).source@ == kv[i],
            forall|i: int| 0 <= i < k ==> m.contains_key((#[trigger] rungs@[i]).source@)
                && rung_of(rungs@[i], m[rungs@[i].source@], report.pooled),
            forall|i: int| 0 <= i < k ==> (#[trigger] rungs@[i]).smoothed_denominator > 0,
        decreases kv.len() - k,
    {
        let name = &keys[k];
        proof {
            assert(kv[k as int] == name@);
            assert(kv.contains(name@));
        }
        let t = match report.by_source.get(name.as_str()) {
            Some(t) => *t,
            None => report.pooled,
        };
        let (n, d) = smoothed_parts(&t);
        let ghost before = rungs@;
        let b = beats_pooled(&t, &report.pooled);
        rungs.push(SourceEntrenchment {
            source: name.clone(),
            accepted: t.accepted,
            smoothed_numerator: n,
            smoothed_denominator: d,
            beats_pooled_baseline: b,
        });
        k = k + 1;
    }
    let n_keys = report.by_source.len();
    proof {
        assert(n_keys == kv.len());
    }
    // Insertion sort by rank; the sources are distinct, so the rank order is
    // total.
    let ghost rs = rungs@;
    let mut sorted: Vec<SourceEntrenchment> = Vec::new();
    proof {
        assert(sorted@.to_multiset() =~= rs.take(0).to_multiset()) by {
            assert(rs.take(0) =~= Seq::<SourceEntrenchment>::empty());
            assert(sorted@ =~= Seq::<SourceEntrenchment>::empty());
        }
    }
    for x in it: rungs
        invariant
            report.by_source.wf(),
            m == report.by_source.map_view(),
            strictly_ascending(kv),
            it.seq() == rs,
            rs.len() == kv.len(),
            forall|q: int| 0 <= q < rs.len() ==> (#[trigger] rs[q]).source@ == kv[q],
            forall|q: int| 0 <= q < rs.len() ==> (#[trigger] rs[q]).smoothed_denominator > 0,
            sorted@.to_multiset() == rs.take(it.index() as int).to_multiset(),
            sorted@.len() == it.index(),
            forall|a: int| 0 <= a < sorted@.len() ==> #[trigger] among_first(sorted@[a], rs, it.index() as int),
            forall|a: int| 0 <= a < sorted@.len() ==> (#[trigger] sorted@[a]).smoothed_denominator > 0,
            forall|a: int, b: int| 0 <= a < b < sorted@.len() ==> ranks_before(#[trigger] sorted@[a], #[trigger] sorted@[b]),
    {
        let ghost k = sorted@.len() as int;
        let ghost sv = sorted@;
        proof {
            assert(k == it.index());
            assert(k < rs.len());
            assert(x == rs[k as int]);
        }
        let mut p: usize = 0;
        while p < sorted.len()
            invariant
                p <= sv.len(),
                sorted@ == sv,
                forall|q: int| 0 <= q < p ==> ranks_before(#[trigger] sv[q], x),
                k < rs.len(),
                x == rs[k as int],
                rs.len() == kv.len(),
                strictly_ascending(kv),
                forall|q: int| 0 <= q < rs.len() ==> (#[trigger] rs[q]).source@ == kv[q],
                forall|a: int| 0 <= a < sv.len() ==> #[trigger] among_first(sv[a], rs, k),
            ensures
                p <= sv.len(),
                forall|q: int| 0 <= q < p ==> ranks_before(#[trigger] sv[q], x),
                p < sv.len() ==> ranks_before(x, sv[p as int]),
            decreases sv.len() - p,
        {
            if rank_before(&x, &sorted[p]) {
                break;
            }
            proof {
                assert(among_first(sv[p as int], rs, k));
                let q = choose|q: int| 0 <= q < k && rs[q] == sv[p as int];
                assert(q != k);
                if q < k {
                    assert(lex_lt(kv[q], kv[k as int]));
                    lemma_lex_irreflexive(kv[q]);
                }
                lemma_ranks_total(sv[p as int], x);
            }
            p = p + 1;
        }
        sorted.insert(p, x);
        proof {
            let nv = sorted@;
            assert(nv =~= sv.insert(p as int, x));
            vstd::seq_lib::to_multiset_insert(sv, p as int, x);
            assert(rs.take(k + 1) =~= rs.take(k as int).push(x));
            vstd::seq_lib::to_multiset_build(rs.take(k as int), x);
            assert forall|a: int| 0 <= a < nv.len() implies #[trigger] among_first(nv[a], rs, k + 1) by {
                if a < p {
                    assert(nv[a] == sv[a]);
                    assert(among_first(sv[a], rs, k));
                    let q = choose|q: int| 0 <= q < k && rs[q] == sv[a];
                } else if a == p {
                    assert(nv[a] == rs[k as int]);
                } else {
                    assert(nv[a] == sv[a - 1]);
                    assert(among_first(sv[a - 1], rs, k));
                    let q = choose|q: int| 0 <= q < k && rs[q] == sv[a - 1];
                }
            }
            assert(x.smoothed_denominator > 0);
            assert forall|a: int| 0 <= a < nv.len() implies (#[trigger] nv[a]).smoothed_denominator > 0 by {
                if a < p {
                    assert(nv[a] == sv[a]);
                } else if a > p {
                    assert(nv[a] == sv[a - 1]);
                }
            }
            assert forall|a: int, b: int| 0 <= a < b < nv.len() implies ranks_before(#[trigger] nv[a], #[trigger] nv[b]) by {
                let da = if a < p { sv[a] } else if a == p { x } else { sv[a - 1] };
                let db = if b < p { sv[b] } else if b == p { x } else { sv[b - 1] };
                assert(nv[a] == da && nv[b] == db);
                if b < p {
                } else if b == p {
                } else if a == p {
                    if b - 1 > p {
                        lemma_ranks_transitive(x, sv[p as int], sv[b - 1]);
                    }
                } else if a < p {
                    if b - 1 > p {
                        lemma_ranks_transitive(x, sv[p as int], sv[b - 1]);
                    }
                    lemma_ranks_transitive(sv[a], x, sv[b - 1]);
                } else {
                }
            }
        }
    }
    proof {
        assert(rs.take(rs.len() as int) =~= rs);
        assert forall|i: int| 0 <= i < sorted@.len() implies #[trigger] m.contains_key(sorted@[i].source@)
            && rung_of(sorted@[i], m[sorted@[i].source@], report.pooled) by {
            assert(among_first(sorted@[i], rs, rs.len() as int));
            let q = choose|q: int| 0 <= q < rs.len() && rs[q] == sorted@[i];
        }
        assert forall|s: Seq<char>| #[trigger] m.contains_key(s) implies exists|i: int|
            0 <= i < sorted@.len() && sorted@[i].source@ == s by {
            assert(kv.contains(s));
            let q = choose|q: int| 0 <= q < kv.len() && kv[q] == s;
            assert(rs.to_multiset().count(rs[q]) > 0) by {
                vstd::seq_lib::to_multiset_contains(rs, rs[q]);
                assert(rs.contains(rs[q]));
            }
            vstd::seq_lib::to_multiset_contains(sorted@, rs[q]);
            let i = choose|i: int| 0 <= i < sorted@.len() && sorted@[i] == rs[q];
        }
    }
    sorted
}

/// The rows' false acceptances, summed.
pub open spec fn rows_false_acceptances(rows: Seq<SourceOutcomeRecord>) -> nat
    decreases rows.len(),
{
    if rows.len() == 0 {
        0
    } else {
        rows_false_acceptances(rows.drop_last()) + rows.last().false_acceptances as nat
    }
}

/// The false acceptances the events of `prefix` drew for each of `sources`,
/// summed.
spec fn sources_false_acceptances(
    sources: Seq<Seq<char>>,
    prefix: Seq<ResearchEventOutcome>,
    all: Seq<ResearchEventOutcome>,
    fb: Map<Seq<char>, HexValue>,
) -> nat
    decreases sources.len(),
{
    if sources.len() == 0 {
        0
    } else {
        sources_false_acceptances(sources.drop_last(), prefix, all, fb) + source_counts(prefix, sources.last(), all, fb).2
    }
}

proof fn lemma_false_accepts_le_accepts(
    actions: Seq<Action>,
    cycle: u64,
    all: Seq<ResearchEventOutcome>,
    fb: Map<Seq<char>, HexValue>,
)
    ensures
        false_accepts_in(actions, cycle, all, fb) <= accept_count(actions),
    decreases actions.len(),
{
    if actions.len() > 0 {
        lemma_false_accepts_le_accepts(actions.drop_last(), cycle, all, fb);
    }
}

/// An event's acceptances are among its source's.
proof fn lemma_event_accepts_in_source(
    prefix: Seq<ResearchEventOutcome>,
    k: int,
    all: Seq<ResearchEventOutcome>,
    fb: Map<Seq<char>, HexValue>,
)
    requires
        0 <= k < prefix.len(),
    ensures
        accept_count(prefix[k].actions@) <= source_counts(prefix, prefix[k].event.source@, all, fb).1,
    decreases prefix.len(),
{
    if k < prefix.len() - 1 {
        lemma_event_accepts_in_source(prefix.drop_last(), k, all, fb);
    }
}

proof fn lemma_no_source_no_counts(sources: Seq<Seq<char>>, all: Seq<ResearchEventOutcome>, fb: Map<Seq<char>, HexValue>)
    ensures
        sources_false_acceptances(sources, Seq::empty(), all, fb) == 0,
    decreases sources.len(),
{
    if sources.len() > 0 {
        lemma_no_source_no_counts(sources.drop_last(), all, fb);
    }
}

proof fn lemma_sources_sum_step(
    sources: Seq<Seq<char>>,
    prefix: Seq<ResearchEventOutcome>,
    o: ResearchEventOutcome,
    all: Seq<ResearchEventOutcome>,
    fb: Map<Seq<char>, HexValue>,
)
    requires
        forall|i: int, j: int| 0 <= i < j < sources.len() ==> sources[i] != sources[j],
    ensures
        sources_false_acceptances(sources, prefix.push(o), all, fb) == sources_false_acceptances(sources, prefix, all, fb)
            + if sources.contains(o.event.source@) {
            false_accepts_in(o.actions@, o.event.cycle, all, fb)
        } else {
            0
        },
    decreases sources.len(),
{
    if sources.len() > 0 {
        let init = sources.drop_last();
        lemma_sources_sum_step(init, prefix, o, all, fb);
        assert(prefix.push(o).drop_last() =~= prefix);
        assert(sources.contains(o.event.source@) <==> init.contains(o.event.source@) || sources.last()
            == o.event.source@) by {
            if sources.contains(o.event.source@) {
                let q = choose|q: int| 0 <= q < sources.len() && sources[q] == o.event.source@;
                if q < sources.len() - 1 {
                    assert(init[q] == o.event.source@);
                }
            }
            if init.contains(o.event.source@) {
                let q = choose|q: int| 0 <= q < init.len() && init[q] == o.event.source@;
                assert(sources[q] == o.event.source@);
            }
        }
        if init.contains(o.event.source@) {
            let q = choose|q: int| 0 <= q < init.len() && init[q] == o.event.source@;
            assert(sources[q] != sources[sources.len() - 1]);
        }
    }
}

proof fn lemma_sources_sum_total(
    sources: Seq<Seq<char>>,
    outcomes: Seq<ResearchEventOutcome>,
    n: int,
    fb: Map<Seq<char>, HexValue>,
)
    requires
        0 <= n <= outcomes.len(),
        forall|i: int, j: int| 0 <= i < j < sources.len() ==> sources[i] != sources[j],
        forall|k: int|
            0 <= k < outcomes.len() && !sources.contains(#[trigger] outcomes[k].event.source@) ==> false_accepts_in(
                outcomes[k].actions@,
                outcomes[k].event.cycle,
                outcomes,
                fb,
            ) == 0,
    ensures
        sources_false_acceptances(sources, outcomes.take(n), outcomes, fb) == crate::metrics::false_accept_total(
            outcomes.take(n),
            outcomes,
            fb,
        ),
    decreases n,
{
    if n > 0 {
        lemma_sources_sum_total(sources, outcomes, n - 1, fb);
        let o = outcomes[n - 1];
        assert(outcomes.take(n) =~= outcomes.take(n - 1).push(o));
        assert(outcomes.take(n).drop_last() =~= outcomes.take(n - 1));
        lemma_sources_sum_step(sources, outcomes.take(n - 1), o, outcomes, fb);
    } else {
        assert(outcomes.take(0) =~= Seq::<ResearchEventOutcome>::empty());
        lemma_no_source_no_counts(sources, outcomes, fb);
    }
}

proof fn lemma_rows_sum(rows: Seq<SourceOutcomeRecord>, outcomes: Seq<ResearchEventOutcome>, fb: Map<Seq<char>, HexValue>)
    requires
        forall|i: int|
            0 <= i < rows.len() ==> (#[trigger] rows[i]).false_acceptances == source_counts(
                outcomes,
                rows[i].source@,
                outcomes,
                fb,
            ).2,
    ensures
        rows_false_acceptances(rows) == sources_false_acceptances(row_sources(rows), outcomes, outcomes, fb),
    decreases rows.len(),
{
    if rows.len() > 0 {
        lemma_rows_sum(rows.drop_last(), outcomes, fb);
        assert(row_sources(rows).drop_last() =~= row_sources(rows.drop_last()));
        assert(row_sources(rows).last() == rows.last().source@);
    }
}

/// The per-source rows cannot drift from the replay's own count: their false
/// acceptances add up to the false acceptances of the whole replay (the same
/// invalidation rule judges both).
pub proof fn law_per_source_false_acceptances_add_up(
    rows: Seq<SourceOutcomeRecord>,
    outcomes: Seq<ResearchEventOutcome>,
    fb: Map<Seq<char>, HexValue>,
)
    requires
        strictly_ascending(row_sources(rows)),
        forall|s: Seq<char>| #[trigger] row_sources(rows).contains(s) <==> has_row(source_counts(outcomes, s, outcomes, fb)),
        forall|i: int|
            0 <= i < rows.len() ==> (#[trigger] rows[i]).false_acceptances == source_counts(
                outcomes,
                rows[i].source@,
                outcomes,
                fb,
            ).2,
    ensures
        rows_false_acceptances(rows) == crate::metrics::false_accept_total(outcomes, outcomes, fb),
{
    let sources = row_sources(rows);
    assert forall|i: int, j: int| 0 <= i < j < sources.len() implies sources[i] != sources[j] by {
        lemma_lex_irreflexive(sources[i]);
    }
    assert forall|k: int|
        0 <= k < outcomes.len() && !sources.contains(#[trigger] outcomes[k].event.source@) implies false_accepts_in(
            outcomes[k].actions@,
            outcomes[k].event.cycle,
            outcomes,
            fb,
        ) == 0 by {
        lemma_event_accepts_in_source(outcomes, k, outcomes, fb);
        lemma_false_accepts_le_accepts(outcomes[k].actions@, outcomes[k].event.cycle, outcomes, fb);
    }
    lemma_rows_sum(rows, outcomes, fb);
    lemma_sources_sum_total(sources, outcomes, outcomes.len() as int, fb);
    assert(outcomes.take(outcomes.len() as int) =~= outcomes);
}

/// Component-wise sum of two bucket sums.
pub open spec fn add_sums(a: (nat, nat, nat, nat, nat, nat), b: (nat, nat, nat, nat, nat, nat)) -> (nat, nat, nat, nat, nat, nat) {
    (a.0 + b.0, a.1 + b.1, a.2 + b.2, a.3 + b.3, a.4 + b.4, a.5 + b.5)
}

/// The bucket sums of `sources`, added up.
pub open spec fn sum_of_buckets(sources: Seq<Seq<char>>, rows: Seq<SourceOutcomeRecord>) -> (nat, nat, nat, nat, nat, nat)
    decreases sources.len(),
{
    if sources.len() == 0 {
        (0, 0, 0, 0, 0, 0)
    } else {
        add_sums(sum_of_buckets(sources.drop_last(), rows), row_sums(rows, Some(sources.last())))
    }
}

/// One row's contribution to a bucket it belongs to.
spec fn row_part(r: SourceOutcomeRecord) -> (nat, nat, nat, nat, nat, nat) {
    (1, r.claims as nat, r.accepted as nat, r.false_acceptances as nat, r.escalations as nat, r.false_escalations as nat)
}

proof fn lemma_bucket_sum_step(sources: Seq<Seq<char>>, rows: Seq<SourceOutcomeRecord>)
    requires
        rows.len() > 0,
        forall|i: int, j: int| 0 <= i < j < sources.len() ==> sources[i] != sources[j],
    ensures
        sum_of_buckets(sources, rows) == add_sums(
            sum_of_buckets(sources, rows.drop_last()),
            if sources.contains(rows.last().source@) {
                row_part(rows.last())
            } else {
                (0, 0, 0, 0, 0, 0)
            },
        ),
    decreases sources.len(),
{
    if sources.len() > 0 {
        let init = sources.drop_last();
        let x = rows.last().source@;
        lemma_bucket_sum_step(init, rows);
        assert(sources.contains(x) <==> init.contains(x) || sources.last() == x) by {
            if sources.contains(x) {
                let q = choose|q: int| 0 <= q < sources.len() && sources[q] == x;
                if q < sources.len() - 1 {
                    assert(init[q] == x);
                }
            }
            if init.contains(x) {
                let q = choose|q: int| 0 <= q < init.len() && init[q] == x;
                assert(sources[q] == x);
            }
        }
        if init.contains(x) {
            let q = choose|q: int| 0 <= q < init.len() && init[q] == x;
            assert(sources[q] != sources[sources.len() - 1]);
        }
    } else {
        assert(!sources.contains(rows.last().source@));
    }
}

proof fn lemma_no_rows_no_sums(sources: Seq<Seq<char>>, rows: Seq<SourceOutcomeRecord>)
    requires
        rows.len() == 0,
    ensures
        sum_of_buckets(sources, rows) == (0nat, 0nat, 0nat, 0nat, 0nat, 0nat),
    decreases sources.len(),
{
    if sources.len() > 0 {
        lemma_no_rows_no_sums(sources.drop_last(), rows);
    }
}

proof fn lemma_buckets_cover_rows(sources: Seq<Seq<char>>, rows: Seq<SourceOutcomeRecord>)
    requires
        forall|i: int, j: int| 0 <= i < j < sources.len() ==> sources[i] != sources[j],
        forall|i: int| 0 <= i < rows.len() ==> sources.contains((#[trigger] rows[i]).source@),
    ensures
        sum_of_buckets(sources, rows) == row_sums(rows, None),
    decreases rows.len(),
{
    if rows.len() > 0 {
        let init = rows.drop_last();
        assert forall|i: int| 0 <= i < init.len() implies sources.contains((#[trigger] init[i]).source@) by {
            assert(init[i] == rows[i]);
        }
        lemma_buckets_cover_rows(sources, init);
        lemma_bucket_sum_step(sources, rows);
        assert(sources.contains(rows[rows.len() - 1].source@));
    } else {
        lemma_no_rows_no_sums(sources, rows);
    }
}

proof fn lemma_row_in_its_bucket(rows: Seq<SourceOutcomeRecord>, k: int)
    requires
        0 <= k < rows.len(),
    ensures
        row_sums(rows, Some(rows[k].source@)).0 > 0,
    decreases rows.len(),
{
    if k < rows.len() - 1 {
        lemma_row_in_its_bucket(rows.drop_last(), k);
    }
}

/// The pooled baseline is the sum of the per-source buckets: for the sources
/// that have rows, listed once each, their totals add up to the pooled ones.
pub proof fn law_pooled_is_the_sum_of_the_sources(rows: Seq<SourceOutcomeRecord>, sources: Seq<Seq<char>>)
    requires
        forall|i: int, j: int| 0 <= i < j < sources.len() ==> sources[i] != sources[j],
        forall|s: Seq<char>| #[trigger] sources.contains(s) <==> row_sums(rows, Some(s)).0 > 0,
    ensures
        sum_of_buckets(sources, rows) == row_sums(rows, None),
{
    assert forall|i: int| 0 <= i < rows.len() implies sources.contains((#[trigger] rows[i]).source@) by {
        lemma_row_in_its_bucket(rows, i);
    }
    lemma_buckets_cover_rows(sources, rows);
}

} // verus!
