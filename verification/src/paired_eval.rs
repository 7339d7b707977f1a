//! Paired-decision scoring: grade a replay against authored ground truth.
//!
//! The primary metric is **Paired Accuracy**: the fraction of
//! should-act / should-abstain pairs where the policy gets *both* halves
//! right. Ground truth lives in sidecar labels rather than on the events, so
//! the research boundary carries no evaluation scaffolding. `Escalate` counts
//! as acting; a `Wait`, a `Log`, a belief update or a message alone do not.

use vstd::prelude::*;
use crate::keymap::{KeyMap, keys_ascending, lemma_entries_map, sorted_distinct};
use crate::research::{Action, ResearchEventOutcome, ResearchTrace, touched, HexValue, PriorityModel};
use crate::corpus::FixtureProvenance;
use crate::text::{lex_lt, str_eq, owned, strictly_ascending, lemma_ascending_unique, string_views, lemma_lex_irreflexive};

verus! {

/// What a correctly-behaving policy should do at one labeled decision point.
#[derive(Debug, Clone, Copy, PartialEq, Eq, Structural)]
pub enum ExpectedDecision {
    /// The evidence warrants a substantive action.
    Act,
    /// Withholding is correct.
    Abstain,
}

/// One half of a pair: the ground truth for the decision at `event_index`.
#[derive(Debug, Clone, PartialEq, Eq)]
pub struct DecisionLabel {
    /// Index into the replay's outcomes.
    pub event_index: usize,
    /// Pair identifier shared by one `Act` and one `Abstain` label.
    pub pair: String,
    pub expect: ExpectedDecision,
}

/// Whether a claim ultimately stood — authored, never derived from an arm.
#[derive(Debug, Clone, Copy, PartialEq, Eq, Structural)]
pub enum ClaimOutcome {
    /// The claim held up; withholding on it was a false rejection.
    Stood,
    /// The claim was retracted or failed; withholding was correct.
    Withdrawn,
    /// Genuinely undecided; scored neither way, and reported.
    Unresolved,
}

/// Ground truth for one proposition's fate across the trace.
#[derive(Debug, Clone, PartialEq, Eq)]
pub struct ClaimLabel {
    pub proposition: String,
    pub outcome: ClaimOutcome,
}

/// Why a labeled pair could not be scored. Reported, never dropped.
#[derive(Debug, Clone, PartialEq, Eq)]
pub enum PairDefect {
    /// Only one half of the pair is labeled.
    MissingHalf { pair: String, present: ExpectedDecision },
    /// Two or more labels claim the same half of one pair.
    DuplicateHalf { pair: String, half: ExpectedDecision },
    /// A label points past the end of the replayed outcomes.
    EventIndexOutOfRange { pair: String, event_index: usize },
}

/// A pair defect as plain values.
pub enum PairDefectView {
    MissingHalf { pair: Seq<char>, present: ExpectedDecision },
    DuplicateHalf { pair: Seq<char>, half: ExpectedDecision },
    EventIndexOutOfRange { pair: Seq<char>, event_index: usize },
}

impl View for PairDefect {
    type V = PairDefectView;

    open spec fn view(&self) -> PairDefectView {
        match self {
            PairDefect::MissingHalf { pair, present } => PairDefectView::MissingHalf {
                pair: pair@,
                present: *present,
            },
            PairDefect::DuplicateHalf { pair, half } => PairDefectView::DuplicateHalf {
                pair: pair@,
                half: *half,
            },
            PairDefect::EventIndexOutOfRange { pair, event_index } =>
                PairDefectView::EventIndexOutOfRange { pair: pair@, event_index: *event_index },
        }
    }
}

/// How one gradeable pair fared.
#[derive(Debug, Clone, PartialEq, Eq)]
pub struct PairOutcome {
    pub pair: String,
    /// The policy acted at the `Act` half, as it should have.
    pub act_correct: bool,
    /// The policy withheld at the `Abstain` half, as it should have.
    pub abstain_correct: bool,
}

/// A pair outcome as plain values.
pub struct PairOutcomeView {
    pub pair: Seq<char>,
    pub act_correct: bool,
    pub abstain_correct: bool,
}

impl View for PairOutcome {
    type V = PairOutcomeView;

    open spec fn view(&self) -> PairOutcomeView {
        PairOutcomeView {
            pair: self.pair@,
            act_correct: self.act_correct,
            abstain_correct: self.abstain_correct,
        }
    }
}

impl PairOutcome {
    /// Both halves right — the unit the primary metric counts.
    pub fn both_correct(&self) -> (r: bool)
        ensures
            r == (self.act_correct && self.abstain_correct),
    {
        self.act_correct && self.abstain_correct
    }
}

/// Result of grading one replay against its labels. The primary metric,
/// Paired Accuracy, is `both_correct / pairs`; a run with no gradeable pair
/// has no accuracy at all (which is not an accuracy of zero).
#[derive(Debug, Clone, PartialEq, Eq)]
pub struct PairedScore {
    /// Pairs where both halves were present, in range, and gradeable.
    pub pairs: usize,
    /// Complete pairs where the policy got both halves right.
    pub both_correct: usize,
    /// Correct `Act` halves.
    pub act_correct: usize,
    /// `Act` halves belonging to a complete pair.
    pub act_total: usize,
    /// Correct `Abstain` halves.
    pub abstain_correct: usize,
    /// `Abstain` halves belonging to a complete pair.
    pub abstain_total: usize,
    /// Per-pair verdicts for every gradeable pair, ordered by pair name.
    pub per_pair: Vec<PairOutcome>,
    /// Everything that could not be graded, named individually.
    pub defects: Vec<PairDefect>,
}

impl PairedScore {
    /// `true` when nothing was gradeable — not a score of zero.
    pub fn is_ungraded(&self) -> (r: bool)
        ensures
            r == (self.pairs == 0),
    {
        self.pairs == 0
    }

    /// Paired Accuracy as a fraction `(both_correct, pairs)`, or `None` when
    /// no pair was gradeable.
    pub fn paired_accuracy(&self) -> (r: Option<(usize, usize)>)
        ensures
            r == (if self.pairs > 0 {
                Some((self.both_correct, self.pairs))
            } else {
                None::<(usize, usize)>
            }),
    {
        if self.pairs > 0 {
            Some((self.both_correct, self.pairs))
        } else {
            None
        }
    }
}

/// The action is substantive: not a `Wait`, a `Log`, a belief update or a
/// message.
pub open spec fn substantive(a: Action) -> bool {
    !(a is Wait || a is Log || a is UpdateBelief || a is SendMessage)
}

/// An outcome acted when at least one of its actions is substantive.
pub open spec fn acted(actions: Seq<Action>) -> bool {
    exists|i: int| 0 <= i < actions.len() && substantive(#[trigger] actions[i])
}

/// Did this outcome's action list constitute acting? An empty list, or one of
/// only `Wait`s and `Log`s, is withholding; a `Wait` beside a substantive
/// action is acting.
pub fn outcome_acted(actions: &[Action]) -> (r: bool)
    ensures
        r == acted(actions@),
{
    let mut i: usize = 0;
    while i < actions.len()
        invariant
            i <= actions@.len(),
            forall|j: int| 0 <= j < i ==> !substantive(#[trigger] actions@[j]),
        decreases actions@.len() - i,
    {
        match &actions[i] {
            Action::Wait | Action::Log(_) | Action::UpdateBelief { .. } | Action::SendMessage => {},
            _ => {
                return true;
            },
        }
        i = i + 1;
    }
    false
}

/// What counts as acting. A `Retry`, an `Investigate`, an `Escalate` or an
/// `Accept` is acting: any list holding one acted, whatever else it holds. A
/// `Wait`, a `Log`, a belief update or a message is not: adding one to a list
/// leaves its verdict unchanged, so a list of only those (or an empty list)
/// withheld.
pub proof fn law_what_counts_as_acting(actions: Seq<Action>, a: Action)
    ensures
        (a is Retry || a is Investigate || a is Escalate || a is Accept) ==> acted(seq![a]) && acted(
            actions.push(a),
        ) && acted(seq![a] + actions),
        (a is Wait || a is Log || a is UpdateBelief || a is SendMessage) ==> !acted(seq![a]) && (acted(
            actions.push(a),
        ) == acted(actions)),
        !acted(Seq::<Action>::empty()),
{
    let pushed = actions.push(a);
    let front = seq![a] + actions;
    assert(pushed[actions.len() as int] == a);
    assert(front[0] == a);
    assert(seq![a][0] == a);
    if acted(actions) {
        let i = choose|i: int| 0 <= i < actions.len() && substantive(#[trigger] actions[i]);
        assert(pushed[i] == actions[i]);
    }
    if acted(pushed) && (a is Wait || a is Log || a is UpdateBelief || a is SendMessage) {
        let i = choose|i: int| 0 <= i < pushed.len() && substantive(#[trigger] pushed[i]);
        assert(i < actions.len());
        assert(pushed[i] == actions[i]);
    }
}

/// Whether each outcome acted.
pub open spec fn acted_seq(outcomes: Seq<ResearchEventOutcome>) -> Seq<bool> {
    outcomes.map_values(|o: ResearchEventOutcome| acted(o.actions@))
}

/// The labels of one pair, in label order.
pub open spec fn group(labels: Seq<DecisionLabel>, pair: Seq<char>) -> Seq<DecisionLabel>
    decreases labels.len(),
{
    if labels.len() == 0 {
        Seq::empty()
    } else if labels.last().pair@ == pair {
        group(labels.drop_last(), pair).push(labels.last())
    } else {
        group(labels.drop_last(), pair)
    }
}

/// A `DuplicateHalf` for every label whose half an earlier label of the same
/// pair already claimed.
pub open spec fn duplicate_defects(g: Seq<DecisionLabel>, pair: Seq<char>) -> Seq<PairDefectView>
    decreases g.len(),
{
    if g.len() == 0 {
        Seq::empty()
    } else {
        let before = duplicate_defects(g.drop_last(), pair);
        if exists|j: int| 0 <= j < g.len() - 1 && (#[trigger] g[j]).expect == g.last().expect {
            before.push(PairDefectView::DuplicateHalf { pair, half: g.last().expect })
        } else {
            before
        }
    }
}

/// The first label of the group claiming half `e`.
pub open spec fn first_with(g: Seq<DecisionLabel>, e: ExpectedDecision) -> Option<DecisionLabel>
    decreases g.len(),
{
    if g.len() == 0 {
        None
    } else if first_with(g.drop_last(), e) is Some {
        first_with(g.drop_last(), e)
    } else if g.last().expect == e {
        Some(g.last())
    } else {
        None
    }
}

/// `EventIndexOutOfRange` for a label pointing past `n` outcomes.
pub open spec fn range_defect(l: DecisionLabel, pair: Seq<char>, n: int) -> Seq<PairDefectView> {
    if l.event_index >= n {
        seq![PairDefectView::EventIndexOutOfRange { pair, event_index: l.event_index }]
    } else {
        Seq::empty()
    }
}

/// Grading one pair: its defects, and its verdict when it is gradeable.
pub open spec fn grade_spec(g: Seq<DecisionLabel>, pair: Seq<char>, acts: Seq<bool>) -> (
    Seq<PairDefectView>,
    Option<PairOutcomeView>,
) {
    let dups = duplicate_defects(g, pair);
    if dups.len() > 0 {
        (dups, None)
    } else {
        match (first_with(g, ExpectedDecision::Act), first_with(g, ExpectedDecision::Abstain)) {
            (Some(a), Some(b)) => {
                let oor = range_defect(a, pair, acts.len() as int) + range_defect(
                    b,
                    pair,
                    acts.len() as int,
                );
                if oor.len() > 0 {
                    (oor, None)
                } else {
                    (
                        Seq::empty(),
                        Some(
                            PairOutcomeView {
                                pair,
                                act_correct: acts[a.event_index as int],
                                abstain_correct: !acts[b.event_index as int],
                            },
                        ),
                    )
                }
            },
            (Some(a), None) => (
                seq![PairDefectView::MissingHalf { pair, present: ExpectedDecision::Act }],
                None,
            ),
            (None, Some(b)) => (
                seq![PairDefectView::MissingHalf { pair, present: ExpectedDecision::Abstain }],
                None,
            ),
            (None, None) => (Seq::empty(), None),
        }
    }
}

/// Defects of the pairs `names`, in that order.
pub open spec fn defects_over(
    names: Seq<Seq<char>>,
    labels: Seq<DecisionLabel>,
    acts: Seq<bool>,
) -> Seq<PairDefectView>
    decreases names.len(),
{
    if names.len() == 0 {
        Seq::empty()
    } else {
        let p = names.last();
        defects_over(names.drop_last(), labels, acts) + grade_spec(group(labels, p), p, acts).0
    }
}

/// Verdicts of the gradeable pairs among `names`, in that order.
pub open spec fn verdicts_over(
    names: Seq<Seq<char>>,
    labels: Seq<DecisionLabel>,
    acts: Seq<bool>,
) -> Seq<PairOutcomeView>
    decreases names.len(),
{
    if names.len() == 0 {
        Seq::empty()
    } else {
        let p = names.last();
        let before = verdicts_over(names.drop_last(), labels, acts);
        match grade_spec(group(labels, p), p, acts).1 {
            Some(v) => before.push(v),
            None => before,
        }
    }
}

/// How many verdicts satisfy `f`.
pub open spec fn count_where(v: Seq<PairOutcomeView>, f: spec_fn(PairOutcomeView) -> bool) -> nat
    decreases v.len(),
{
    if v.len() == 0 {
        0
    } else {
        count_where(v.drop_last(), f) + if f(v.last()) {
            1nat
        } else {
            0nat
        }
    }
}

/// The distinct pair names of the labels, ascending.
pub open spec fn pair_names(names: Seq<Seq<char>>, labels: Seq<DecisionLabel>) -> bool {
    &&& strictly_ascending(names)
    &&& forall|p: Seq<char>| names.contains(p) <==> exists|i: int| 0 <= i < labels.len() && (#[trigger] labels[i]).pair@ == p
}

/// The score's parts as they follow from the pairs, in name order.
pub open spec fn score_matches(
    s: PairedScore,
    names: Seq<Seq<char>>,
    labels: Seq<DecisionLabel>,
    acts: Seq<bool>,
) -> bool {
    let v = verdicts_over(names, labels, acts);
    &&& s.defects@.map_values(|d: PairDefect| d@) == defects_over(names, labels, acts)
    &&& s.per_pair@.map_values(|o: PairOutcome| o@) == v
    &&& s.pairs == v.len()
    &&& s.act_total == v.len()
    &&& s.abstain_total == v.len()
    &&& s.act_correct == count_where(v, |o: PairOutcomeView| o.act_correct)
    &&& s.abstain_correct == count_where(v, |o: PairOutcomeView| o.abstain_correct)
    &&& s.both_correct == count_where(v, |o: PairOutcomeView| o.act_correct && o.abstain_correct)
}

/// The labels at the given indices, in that order.
pub open spec fn labels_at(ix: Seq<usize>, labels: Seq<DecisionLabel>) -> Seq<DecisionLabel> {
    ix.map_values(|j: usize| labels[j as int])
}

proof fn lemma_group_step(labels: Seq<DecisionLabel>, i: int, p: Seq<char>)
    requires
        0 <= i < labels.len(),
    ensures
        group(labels.take(i + 1), p) == if labels[i].pair@ == p {
            group(labels.take(i), p).push(labels[i])
        } else {
            group(labels.take(i), p)
        },
{
    assert(labels.take(i + 1).drop_last() =~= labels.take(i));
}

proof fn lemma_group_empty(labels: Seq<DecisionLabel>, p: Seq<char>)
    requires
        forall|i: int| 0 <= i < labels.len() ==> (#[trigger] labels[i]).pair@ != p,
    ensures
        group(labels, p) == Seq::<DecisionLabel>::empty(),
    decreases labels.len(),
{
    if labels.len() > 0 {
        lemma_group_empty(labels.drop_last(), p);
    }
}

/// Label indices grouped by pair name, pairs ascending, indices in label
/// order.
fn group_labels(labels: &[DecisionLabel]) -> (m: KeyMap<Vec<usize>>)
    ensures
        m.wf(),
        forall|p: Seq<char>|
            #[trigger] m.map_view().contains_key(p) <==> exists|i: int|
                0 <= i < labels@.len() && (#[trigger] labels@[i]).pair@ == p,
        forall|p: Seq<char>|
            #[trigger] m.map_view().contains_key(p) ==> labels_at(m.map_view()[p]@, labels@)
                == group(labels@, p) && forall|k: int|
                0 <= k < m.map_view()[p]@.len() ==> #[trigger] m.map_view()[p]@[k]
                    < labels@.len(),
{
    let mut m: KeyMap<Vec<usize>> = KeyMap::new();
    let mut i: usize = 0;
    while i < labels.len()
        invariant
            i <= labels@.len(),
            m.wf(),
            forall|p: Seq<char>|
                #[trigger] m.map_view().contains_key(p) <==> exists|j: int|
                    0 <= j < i && (#[trigger] labels@[j]).pair@ == p,
            forall|p: Seq<char>|
                #[trigger] m.map_view().contains_key(p) ==> labels_at(m.map_view()[p]@, labels@)
                    == group(labels@.take(i as int), p) && forall|k: int|
                    0 <= k < m.map_view()[p]@.len() ==> #[trigger] m.map_view()[p]@[k] < i,
        decreases labels@.len() - i,
    {
        let ghost before = m.map_view();
        let lab = &labels[i];
        proof {
            assert forall|p: Seq<char>| true implies group(labels@.take(i + 1), p) == if labels@[i as int].pair@ == p {
                group(labels@.take(i as int), p).push(labels@[i as int])
            } else {
                group(labels@.take(i as int), p)
            } by {
                lemma_group_step(labels@, i as int, p);
            }
        }
        match m.find(lab.pair.as_str()) {
            Some(pos) => {
                let mut ix = m.replace_value(pos, Vec::new());
                let ghost old_ix = ix@;
                ix.push(i);
                m.set_value(pos, ix);
                proof {
                    assert(labels_at(ix@, labels@) =~= labels_at(old_ix, labels@).push(labels@[i as int]));
                }
            },
            None => {
                let ix = vec![i];
                proof {
                    assert forall|j: int| 0 <= j < i implies (#[trigger] labels@.take(i as int)[j]).pair@ != lab.pair@ by {
                        assert(labels@.take(i as int)[j] == labels@[j]);
                        if labels@[j].pair@ == lab.pair@ {
                            assert(before.contains_key(lab.pair@));
                        }
                    }
                    lemma_group_empty(labels@.take(i as int), lab.pair@);
                    assert(labels_at(ix@, labels@) =~= seq![labels@[i as int]]);
                }
                m.insert(lab.pair.clone(), ix);
            },
        }
        proof {
            assert forall|p: Seq<char>|
                #[trigger] m.map_view().contains_key(p) <==> exists|j: int|
                    0 <= j < i + 1 && (#[trigger] labels@[j]).pair@ == p by {
                if exists|j: int| 0 <= j < i + 1 && (#[trigger] labels@[j]).pair@ == p {
                    let j = choose|j: int| 0 <= j < i + 1 && (#[trigger] labels@[j]).pair@ == p;
                    if j < i {
                        assert(before.contains_key(p));
                    }
                }
                if m.map_view().contains_key(p) && p != lab.pair@ {
                    assert(before.contains_key(p));
                }
            }
        }
        i = i + 1;
    }
    proof {
        assert(labels@.take(labels@.len() as int) =~= labels@);
    }
    m
}

proof fn lemma_first_with(g: Seq<DecisionLabel>, e: ExpectedDecision)
    ensures
        first_with(g, e) is Some <==> exists|j: int| 0 <= j < g.len() && (#[trigger] g[j]).expect == e,
        first_with(g, e) is Some ==> first_with(g, e)->0.expect == e,
    decreases g.len(),
{
    if g.len() > 0 {
        lemma_first_with(g.drop_last(), e);
        if exists|j: int| 0 <= j < g.len() - 1 && (#[trigger] g.drop_last()[j]).expect == e {
            let j = choose|j: int| 0 <= j < g.len() - 1 && (#[trigger] g.drop_last()[j]).expect == e;
            assert(g[j] == g.drop_last()[j]);
        }
        if exists|j: int| 0 <= j < g.len() && (#[trigger] g[j]).expect == e {
            let j = choose|j: int| 0 <= j < g.len() && (#[trigger] g[j]).expect == e;
            if j < g.len() - 1 {
                assert(g.drop_last()[j] == g[j]);
            }
        }
    }
}

proof fn lemma_take_step<A>(s: Seq<A>, k: int)
    requires
        0 <= k < s.len(),
    ensures
        s.take(k + 1).drop_last() == s.take(k),
        s.take(k + 1).last() == s[k],
{
    assert(s.take(k + 1).drop_last() =~= s.take(k));
}

/// Grade one pair from its labels (given by index).
fn grade_pair(
    pair: &String,
    ix: &Vec<usize>,
    labels: &[DecisionLabel],
    outcomes: &[ResearchEventOutcome],
) -> (r: (Vec<PairDefect>, Option<PairOutcome>))
    requires
        forall|k: int| 0 <= k < ix@.len() ==> #[trigger] ix@[k] < labels@.len(),
        forall|k: int| 0 <= k < ix@.len() ==> (#[trigger] labels@[ix@[k] as int]).pair@ == pair@,
    ensures
        ({
            let (d, v) = grade_spec(labels_at(ix@, labels@), pair@, acted_seq(outcomes@));
            &&& r.0@.map_values(|x: PairDefect| x@) == d
            &&& match r.1 {
                Some(o) => v == Some(o@),
                None => v is None,
            }
        }),
{
    let ghost g = labels_at(ix@, labels@);
    let mut defects: Vec<PairDefect> = Vec::new();
    let mut act: Option<usize> = None;
    let mut abstain: Option<usize> = None;
    let mut k: usize = 0;
    while k < ix.len()
        invariant
            g == labels_at(ix@, labels@),
            forall|q: int| 0 <= q < ix@.len() ==> #[trigger] ix@[q] < labels@.len(),
            forall|q: int| 0 <= q < ix@.len() ==> (#[trigger] labels@[ix@[q] as int]).pair@ == pair@,
            k <= ix@.len(),
            defects@.map_values(|x: PairDefect| x@) == duplicate_defects(g.take(k as int), pair@),
            match act {
                Some(j) => j < labels@.len() && first_with(g.take(k as int), ExpectedDecision::Act)
                    == Some(labels@[j as int]),
                None => first_with(g.take(k as int), ExpectedDecision::Act) is None,
            },
            match abstain {
                Some(j) => j < labels@.len() && first_with(g.take(k as int), ExpectedDecision::Abstain)
                    == Some(labels@[j as int]),
                None => first_with(g.take(k as int), ExpectedDecision::Abstain) is None,
            },
        decreases ix@.len() - k,
    {
        let j = ix[k];
        let lab = &labels[j];
        proof {
            lemma_take_step(g, k as int);
            assert(g[k as int] == labels@[j as int]);
            lemma_first_with(g.take(k as int), lab.expect);
            assert forall|q: int| 0 <= q < k implies g.take(k + 1)[q] == (#[trigger] g.take(k as int)[q]) by {}
        }
        let taken = match lab.expect {
            ExpectedDecision::Act => act.is_some(),
            ExpectedDecision::Abstain => abstain.is_some(),
        };
        let ghost before = defects@;
        if taken {
            defects.push(PairDefect::DuplicateHalf { pair: pair.clone(), half: lab.expect });
            proof {
                let e = lab.expect;
                let w = choose|q: int| 0 <= q < k && (#[trigger] g.take(k as int)[q]).expect == e;
                assert(g.take(k + 1)[w] == g.take(k as int)[w]);
                assert(exists|q: int| 0 <= q < g.take(k + 1).len() - 1 && (#[trigger] g.take(k + 1)[q]).expect == g.take(k + 1).last().expect);
                assert(defects@.map_values(|x: PairDefect| x@) =~= before.map_values(|x: PairDefect| x@).push(
                    PairDefectView::DuplicateHalf { pair: pair@, half: e }));
            }
        } else {
            match lab.expect {
                ExpectedDecision::Act => {
                    act = Some(j);
                },
                ExpectedDecision::Abstain => {
                    abstain = Some(j);
                },
            }
            proof {
                let e = lab.expect;
                if exists|q: int| 0 <= q < g.take(k + 1).len() - 1 && (#[trigger] g.take(k + 1)[q]).expect == g.take(k + 1).last().expect {
                    let q = choose|q: int| 0 <= q < g.take(k + 1).len() - 1 && (#[trigger] g.take(k + 1)[q]).expect == g.take(k + 1).last().expect;
                    assert(g.take(k as int)[q] == g.take(k + 1)[q]);
                }
            }
        }
        k = k + 1;
    }
    proof {
        assert(g.take(ix@.len() as int) =~= g);
    }
    if defects.len() > 0 {
        return (defects, None);
    }
    match (act, abstain) {
        (Some(a), Some(b)) => {
            let n = outcomes.len();
            let ghost acts = acted_seq(outcomes@);
            let la = &labels[a];
            let lb = &labels[b];
            if la.event_index >= n {
                defects.push(PairDefect::EventIndexOutOfRange { pair: pair.clone(), event_index: la.event_index });
            }
            if lb.event_index >= n {
                defects.push(PairDefect::EventIndexOutOfRange { pair: pair.clone(), event_index: lb.event_index });
            }
            proof {
                assert(defects@.map_values(|x: PairDefect| x@) =~= range_defect(labels@[a as int], pair@, acts.len() as int)
                    + range_defect(labels@[b as int], pair@, acts.len() as int));
            }
            if defects.len() > 0 {
                return (defects, None);
            }
            let act_right = outcome_acted(outcomes[la.event_index].actions.as_slice());
            let abstain_right = !outcome_acted(outcomes[lb.event_index].actions.as_slice());
            (defects, Some(PairOutcome { pair: pair.clone(), act_correct: act_right, abstain_correct: abstain_right }))
        },
        (Some(a), None) => {
            defects.push(PairDefect::MissingHalf { pair: pair.clone(), present: ExpectedDecision::Act });
            proof {
                assert(defects@.map_values(|x: PairDefect| x@) =~= seq![PairDefectView::MissingHalf { pair: pair@, present: ExpectedDecision::Act }]);
            }
            (defects, None)
        },
        (None, Some(b)) => {
            defects.push(PairDefect::MissingHalf { pair: pair.clone(), present: ExpectedDecision::Abstain });
            proof {
                assert(defects@.map_values(|x: PairDefect| x@) =~= seq![PairDefectView::MissingHalf { pair: pair@, present: ExpectedDecision::Abstain }]);
            }
            (defects, None)
        },
        (None, None) => (defects, None),
    }
}


proof fn lemma_group_pairs(labels: Seq<DecisionLabel>, p: Seq<char>)
    ensures
        forall|k: int| 0 <= k < group(labels, p).len() ==> (#[trigger] group(labels, p)[k]).pair@ == p,
    decreases labels.len(),
{
    if labels.len() > 0 {
        lemma_group_pairs(labels.drop_last(), p);
    }
}

proof fn lemma_count_push(v: Seq<PairOutcomeView>, x: PairOutcomeView, f: spec_fn(PairOutcomeView) -> bool)
    ensures
        count_where(v.push(x), f) == count_where(v, f) + if f(x) { 1nat } else { 0nat },
{
    assert(v.push(x).drop_last() =~= v);
}

/// Grade a replay's outcomes against ground-truth labels.
///
/// Labels are grouped by pair and the pairs walked in ascending name order.
/// A pair with a duplicated half, a missing half, or a half pointing past the
/// last outcome is reported in `defects` and not graded; every other pair
/// yields one verdict in `per_pair` and counts toward the totals. The act half
/// is right when that outcome acted, the abstain half when it did not.
pub fn score_paired(outcomes: &[ResearchEventOutcome], labels: &[DecisionLabel]) -> (s: PairedScore)
    ensures
        exists|names: Seq<Seq<char>>|
            pair_names(names, labels@) && score_matches(s, names, labels@, acted_seq(outcomes@)),
{
    let ghost acts = acted_seq(outcomes@);
    let m = group_labels(labels);
    let ghost names = m.entry_seq().map_values(|e: (Seq<char>, Vec<usize>)| e.0);
    proof {
        lemma_entries_map(m.entry_seq());
        assert forall|p: Seq<char>| names.contains(p) <==> exists|i: int|
            0 <= i < labels@.len() && (#[trigger] labels@[i]).pair@ == p by {
            if names.contains(p) {
                let j = choose|j: int| 0 <= j < names.len() && names[j] == p;
                assert(m.entry_seq()[j].0 == p);
                assert(m.map_view().contains_key(p));
            }
            if exists|i: int| 0 <= i < labels@.len() && (#[trigger] labels@[i]).pair@ == p {
                assert(m.map_view().contains_key(p));
                let j = choose|j: int| 0 <= j < m.entry_seq().len() && #[trigger] m.entry_seq()[j].0 == p;
                assert(names[j] == p);
            }
        }
        assert(pair_names(names, labels@));
    }
    let mut defects: Vec<PairDefect> = Vec::new();
    let mut per_pair: Vec<PairOutcome> = Vec::new();
    let mut pairs: usize = 0;
    let mut both: usize = 0;
    let mut act_ok: usize = 0;
    let mut abstain_ok: usize = 0;
    let n = m.len();
    let mut i: usize = 0;
    while i < n
        invariant
            n == m.entry_seq().len(),
            names == m.entry_seq().map_values(|e: (Seq<char>, Vec<usize>)| e.0),
            m.wf(),
            forall|q: int| 0 <= q < m.entry_seq().len() ==> #[trigger] m.map_view().contains_key(m.entry_seq()[q].0)
                && m.map_view()[m.entry_seq()[q].0] == m.entry_seq()[q].1,
            forall|p: Seq<char>|
                #[trigger] m.map_view().contains_key(p) ==> labels_at(m.map_view()[p]@, labels@)
                    == group(labels@, p) && forall|k: int|
                    0 <= k < m.map_view()[p]@.len() ==> #[trigger] m.map_view()[p]@[k]
                        < labels@.len(),
            acts == acted_seq(outcomes@),
            i <= n,
            defects@.map_values(|d: PairDefect| d@) == defects_over(names.take(i as int), labels@, acts),
            per_pair@.map_values(|o: PairOutcome| o@) == verdicts_over(names.take(i as int), labels@, acts),
            pairs == verdicts_over(names.take(i as int), labels@, acts).len(),
            pairs <= i,
            act_ok == count_where(verdicts_over(names.take(i as int), labels@, acts), |o: PairOutcomeView| o.act_correct),
            abstain_ok == count_where(verdicts_over(names.take(i as int), labels@, acts), |o: PairOutcomeView| o.abstain_correct),
            both == count_where(verdicts_over(names.take(i as int), labels@, acts), |o: PairOutcomeView| o.act_correct && o.abstain_correct),
            act_ok <= pairs,
            abstain_ok <= pairs,
            both <= pairs,
        decreases n - i,
    {
        let pair = m.key_at(i);
        let ix = m.value_at(i);
        let ghost p = names[i as int];
        proof {
            assert(p == pair@);
            assert(m.map_view().contains_key(m.entry_seq()[i as int].0));
            assert(m.map_view()[p] == *ix);
            lemma_group_pairs(labels@, p);
            assert forall|k: int| 0 <= k < ix@.len() implies (#[trigger] labels@[ix@[k] as int]).pair@ == pair@ by {
                assert(labels_at(ix@, labels@)[k] == labels@[ix@[k] as int]);
                assert(group(labels@, p)[k] == labels@[ix@[k] as int]);
            }
            lemma_take_step(names, i as int);
        }
        let (mut d, v) = grade_pair(pair, ix, labels, outcomes);
        let ghost d_before = defects@;
        defects.append(&mut d);
        proof {
            assert(defects@.map_values(|x: PairDefect| x@) =~= d_before.map_values(|x: PairDefect| x@)
                + grade_spec(group(labels@, p), p, acts).0);
        }
        match v {
            Some(o) => {
                let ghost vb = verdicts_over(names.take(i as int), labels@, acts);
                proof {
                    lemma_count_push(vb, o@, |o: PairOutcomeView| o.act_correct);
                    lemma_count_push(vb, o@, |o: PairOutcomeView| o.abstain_correct);
                    lemma_count_push(vb, o@, |o: PairOutcomeView| o.act_correct && o.abstain_correct);
                }
                pairs = pairs + 1;
                if o.act_correct {
                    act_ok = act_ok + 1;
                }
                if o.abstain_correct {
                    abstain_ok = abstain_ok + 1;
                }
                if o.act_correct && o.abstain_correct {
                    both = both + 1;
                }
                let ghost pb = per_pair@;
                per_pair.push(o);
                proof {
                    assert(per_pair@.map_values(|x: PairOutcome| x@) =~= pb.map_values(|x: PairOutcome| x@).push(o@));
                }
            },
            None => {},
        }
        i = i + 1;
    }
    proof {
        assert(names.take(n as int) =~= names);
    }
    PairedScore {
        pairs,
        both_correct: both,
        act_correct: act_ok,
        act_total: pairs,
        abstain_correct: abstain_ok,
        abstain_total: pairs,
        per_pair,
        defects,
    }
}


/// The graded pair names of a label set are determined by the labels alone.
pub proof fn lemma_pair_names_unique(a: Seq<Seq<char>>, b: Seq<Seq<char>>, labels: Seq<DecisionLabel>)
    requires
        pair_names(a, labels),
        pair_names(b, labels),
    ensures
        a == b,
{
    assert forall|p: Seq<char>| a.contains(p) <==> b.contains(p) by {
        assert(a.contains(p) <==> exists|i: int| 0 <= i < labels.len() && (#[trigger] labels[i]).pair@ == p);
        assert(b.contains(p) <==> exists|i: int| 0 <= i < labels.len() && (#[trigger] labels[i]).pair@ == p);
    }
    lemma_ascending_unique(a, b);
}

proof fn lemma_arm_independent_over(
    names: Seq<Seq<char>>,
    labels: Seq<DecisionLabel>,
    acts_a: Seq<bool>,
    acts_b: Seq<bool>,
)
    requires
        acts_a.len() == acts_b.len(),
    ensures
        defects_over(names, labels, acts_a) == defects_over(names, labels, acts_b),
        verdicts_over(names, labels, acts_a).map_values(|o: PairOutcomeView| o.pair)
            == verdicts_over(names, labels, acts_b).map_values(|o: PairOutcomeView| o.pair),
    decreases names.len(),
{
    if names.len() > 0 {
        let p = names.last();
        lemma_arm_independent_over(names.drop_last(), labels, acts_a, acts_b);
        let va = verdicts_over(names.drop_last(), labels, acts_a);
        let vb = verdicts_over(names.drop_last(), labels, acts_b);
        let ga = grade_spec(group(labels, p), p, acts_a);
        let gb = grade_spec(group(labels, p), p, acts_b);
        assert(ga.0 == gb.0);
        assert(ga.1 is Some <==> gb.1 is Some);
        if ga.1 is Some {
            assert(va.push(ga.1->0).map_values(|o: PairOutcomeView| o.pair) =~= va.map_values(
                |o: PairOutcomeView| o.pair,
            ).push(p));
            assert(vb.push(gb.1->0).map_values(|o: PairOutcomeView| o.pair) =~= vb.map_values(
                |o: PairOutcomeView| o.pair,
            ).push(p));
        }
    }
}

/// Gradeability is arm-independent: two replays of one trace (the same
/// number of outcomes, whatever each arm did) graded against one label set
/// report the same defects and grade the same pairs, in the same order.
/// Ground truth grades the decision point, not the model that reached it.
pub proof fn law_gradeability_is_arm_independent(
    labels: Seq<DecisionLabel>,
    outcomes_a: Seq<ResearchEventOutcome>,
    outcomes_b: Seq<ResearchEventOutcome>,
    score_a: PairedScore,
    score_b: PairedScore,
)
    requires
        outcomes_a.len() == outcomes_b.len(),
        exists|n: Seq<Seq<char>>|
            pair_names(n, labels) && score_matches(score_a, n, labels, acted_seq(outcomes_a)),
        exists|n: Seq<Seq<char>>|
            pair_names(n, labels) && score_matches(score_b, n, labels, acted_seq(outcomes_b)),
    ensures
        score_a.defects@.map_values(|d: PairDefect| d@) == score_b.defects@.map_values(
            |d: PairDefect| d@,
        ),
        score_a.pairs == score_b.pairs,
        score_a.per_pair@.map_values(|o: PairOutcome| o.pair@) == score_b.per_pair@.map_values(
            |o: PairOutcome| o.pair@,
        ),
{
    let na = choose|n: Seq<Seq<char>>|
        pair_names(n, labels) && score_matches(score_a, n, labels, acted_seq(outcomes_a));
    let nb = choose|n: Seq<Seq<char>>|
        pair_names(n, labels) && score_matches(score_b, n, labels, acted_seq(outcomes_b));
    lemma_pair_names_unique(na, nb, labels);
    let acts_a = acted_seq(outcomes_a);
    let acts_b = acted_seq(outcomes_b);
    lemma_arm_independent_over(na, labels, acts_a, acts_b);
    let va = verdicts_over(na, labels, acts_a);
    let vb = verdicts_over(na, labels, acts_b);
    assert(va.len() == va.map_values(|o: PairOutcomeView| o.pair).len());
    assert(score_a.per_pair@.map_values(|o: PairOutcome| o.pair@) =~= va.map_values(
        |o: PairOutcomeView| o.pair,
    )) by {
        assert forall|k: int| 0 <= k < va.len() implies #[trigger] score_a.per_pair@[k].pair@ == va[k].pair by {
            assert(score_a.per_pair@.map_values(|o: PairOutcome| o@)[k] == va[k]);
        }
    }
    assert(score_b.per_pair@.map_values(|o: PairOutcome| o.pair@) =~= vb.map_values(
        |o: PairOutcomeView| o.pair,
    )) by {
        assert forall|k: int| 0 <= k < vb.len() implies #[trigger] score_b.per_pair@[k].pair@ == vb[k].pair by {
            assert(score_b.per_pair@.map_values(|o: PairOutcome| o@)[k] == vb[k]);
        }
    }
}

proof fn lemma_count_and_le(v: Seq<PairOutcomeView>)
    ensures
        count_where(v, |o: PairOutcomeView| o.act_correct && o.abstain_correct) <= count_where(
            v,
            |o: PairOutcomeView| o.act_correct,
        ),
        count_where(v, |o: PairOutcomeView| o.act_correct && o.abstain_correct) <= count_where(
            v,
            |o: PairOutcomeView| o.abstain_correct,
        ),
    decreases v.len(),
{
    if v.len() > 0 {
        lemma_count_and_le(v.drop_last());
    }
}

/// The per-pair list reconstructs the aggregate exactly: one verdict per
/// graded pair, and each count is the number of verdicts with that property.
/// Half credit is not credit: both halves right never outnumbers either half.
pub proof fn law_per_pair_reconstructs_the_aggregate(
    labels: Seq<DecisionLabel>,
    outcomes: Seq<ResearchEventOutcome>,
    score: PairedScore,
)
    requires
        exists|n: Seq<Seq<char>>|
            pair_names(n, labels) && score_matches(score, n, labels, acted_seq(outcomes)),
    ensures
        score.per_pair@.len() == score.pairs,
        score.act_total == score.pairs,
        score.abstain_total == score.pairs,
        count_where(score.per_pair@.map_values(|o: PairOutcome| o@), |o: PairOutcomeView| o.act_correct && o.abstain_correct)
            == score.both_correct,
        count_where(score.per_pair@.map_values(|o: PairOutcome| o@), |o: PairOutcomeView| o.act_correct)
            == score.act_correct,
        count_where(score.per_pair@.map_values(|o: PairOutcome| o@), |o: PairOutcomeView| o.abstain_correct)
            == score.abstain_correct,
        score.both_correct <= score.act_correct,
        score.both_correct <= score.abstain_correct,
{
    let n = choose|n: Seq<Seq<char>>|
        pair_names(n, labels) && score_matches(score, n, labels, acted_seq(outcomes));
    let v = verdicts_over(n, labels, acted_seq(outcomes));
    assert(score.per_pair@.map_values(|o: PairOutcome| o@).len() == score.per_pair@.len());
    lemma_count_and_le(v);
}


/// The pair a defect is about.
pub open spec fn defect_pair(d: PairDefectView) -> Seq<char> {
    match d {
        PairDefectView::MissingHalf { pair, .. } => pair,
        PairDefectView::DuplicateHalf { pair, .. } => pair,
        PairDefectView::EventIndexOutOfRange { pair, .. } => pair,
    }
}

/// Some label names the pair.
pub open spec fn labelled(labels: Seq<DecisionLabel>, p: Seq<char>) -> bool {
    exists|i: int| 0 <= i < labels.len() && (#[trigger] labels[i]).pair@ == p
}

/// The score grades the pair: it has a verdict in `per_pair`.
pub open spec fn grades(s: PairedScore, p: Seq<char>) -> bool {
    exists|k: int| 0 <= k < s.per_pair@.len() && (#[trigger] s.per_pair@[k]).pair@ == p
}

/// The score reports the pair: a defect in `defects` is about it.
pub open spec fn reports(s: PairedScore, p: Seq<char>) -> bool {
    exists|k: int| 0 <= k < s.defects@.len() && defect_pair((#[trigger] s.defects@[k])@) == p
}

proof fn lemma_duplicate_defects_pair(g: Seq<DecisionLabel>, pair: Seq<char>)
    ensures
        forall|k: int| 0 <= k < duplicate_defects(g, pair).len() ==> defect_pair(
            #[trigger] duplicate_defects(g, pair)[k],
        ) == pair,
    decreases g.len(),
{
    if g.len() > 0 {
        lemma_duplicate_defects_pair(g.drop_last(), pair);
        let before = duplicate_defects(g.drop_last(), pair);
        let now = duplicate_defects(g, pair);
        assert forall|k: int| 0 <= k < now.len() implies defect_pair(#[trigger] now[k]) == pair by {
            if k < before.len() {
                assert(now[k] == before[k]);
            }
        }
    }
}

/// Grading one pair speaks of that pair only, and a pair with at least one
/// label is either graded or reported, never both.
proof fn lemma_grade_spec_shape(g: Seq<DecisionLabel>, pair: Seq<char>, acts: Seq<bool>)
    ensures
        forall|k: int| 0 <= k < grade_spec(g, pair, acts).0.len() ==> defect_pair(
            #[trigger] grade_spec(g, pair, acts).0[k],
        ) == pair,
        grade_spec(g, pair, acts).1 is Some ==> grade_spec(g, pair, acts).1->0.pair == pair,
        g.len() > 0 ==> ((grade_spec(g, pair, acts).1 is Some) <==> grade_spec(g, pair, acts).0.len()
            == 0),
{
    lemma_duplicate_defects_pair(g, pair);
    lemma_first_with(g, ExpectedDecision::Act);
    lemma_first_with(g, ExpectedDecision::Abstain);
    if g.len() > 0 {
        let e = g[g.len() - 1].expect;
        assert(e == ExpectedDecision::Act || e == ExpectedDecision::Abstain);
        assert(first_with(g, e) is Some);
    }
    let r = grade_spec(g, pair, acts);
    assert forall|k: int| 0 <= k < r.0.len() implies defect_pair(#[trigger] r.0[k]) == pair by {
        if duplicate_defects(g, pair).len() == 0 {
            match (first_with(g, ExpectedDecision::Act), first_with(g, ExpectedDecision::Abstain)) {
                (Some(a), Some(b)) => {
                    let ra = range_defect(a, pair, acts.len() as int);
                    let rb = range_defect(b, pair, acts.len() as int);
                    if k < ra.len() {
                        assert((ra + rb)[k] == ra[k]);
                    } else {
                        assert((ra + rb)[k] == rb[k - ra.len()]);
                    }
                },
                _ => {},
            }
        }
    }
}

proof fn lemma_labelled_group(labels: Seq<DecisionLabel>, p: Seq<char>)
    requires
        labelled(labels, p),
    ensures
        group(labels, p).len() > 0,
    decreases labels.len(),
{
    let i = choose|i: int| 0 <= i < labels.len() && (#[trigger] labels[i]).pair@ == p;
    if labels.last().pair@ != p {
        assert(labels.drop_last()[i] == labels[i]);
        lemma_labelled_group(labels.drop_last(), p);
    }
}

/// Over an ascending list of names: the verdicts and defects speak only of
/// those names, the verdicts come in name order, and each name has a verdict
/// exactly when its own grading gives one, and defects exactly when its own
/// grading reports some.
proof fn lemma_partition_over(names: Seq<Seq<char>>, labels: Seq<DecisionLabel>, acts: Seq<bool>)
    requires
        strictly_ascending(names),
    ensures
        forall|k: int| 0 <= k < verdicts_over(names, labels, acts).len() ==> names.contains(
            (#[trigger] verdicts_over(names, labels, acts)[k]).pair,
        ),
        forall|k: int| 0 <= k < defects_over(names, labels, acts).len() ==> names.contains(
            defect_pair(#[trigger] defects_over(names, labels, acts)[k]),
        ),
        forall|i: int, j: int| 0 <= i < j < verdicts_over(names, labels, acts).len() ==> lex_lt(
            (#[trigger] verdicts_over(names, labels, acts)[i]).pair,
            (#[trigger] verdicts_over(names, labels, acts)[j]).pair,
        ),
        forall|p: Seq<char>| #[trigger] names.contains(p) ==> ((exists|k: int|
            0 <= k < verdicts_over(names, labels, acts).len() && (#[trigger] verdicts_over(
                names,
                labels,
                acts,
            )[k]).pair == p) <==> grade_spec(group(labels, p), p, acts).1 is Some),
        forall|p: Seq<char>| #[trigger] names.contains(p) ==> ((exists|k: int|
            0 <= k < defects_over(names, labels, acts).len() && defect_pair(
                #[trigger] defects_over(names, labels, acts)[k],
            ) == p) <==> grade_spec(group(labels, p), p, acts).0.len() > 0),
    decreases names.len(),
{
    if names.len() > 0 {
        let t = names.drop_last();
        let last = names.last();
        assert(strictly_ascending(t)) by {
            assert forall|i: int, j: int| 0 <= i < j < t.len() implies lex_lt(#[trigger] t[i], #[trigger] t[j]) by {
                assert(t[i] == names[i] && t[j] == names[j]);
            }
        }
        lemma_partition_over(t, labels, acts);
        let vt = verdicts_over(t, labels, acts);
        let dt = defects_over(t, labels, acts);
        let v = verdicts_over(names, labels, acts);
        let d = defects_over(names, labels, acts);
        let gs = grade_spec(group(labels, last), last, acts);
        lemma_grade_spec_shape(group(labels, last), last, acts);
        assert(d == dt + gs.0);
        // Every name before the last is below it, so differs from it.
        assert forall|x: Seq<char>| #[trigger] t.contains(x) implies lex_lt(x, last) && x != last by {
            let i = choose|i: int| 0 <= i < t.len() && t[i] == x;
            assert(t[i] == names[i]);
            assert(lex_lt(names[i], names[names.len() - 1]));
            lemma_lex_irreflexive(last);
        }
        assert forall|x: Seq<char>| #[trigger] t.contains(x) implies names.contains(x) by {
            let i = choose|i: int| 0 <= i < t.len() && t[i] == x;
            assert(names[i] == x);
        }
        assert(names[names.len() - 1] == last);
        assert(names.contains(last));
        assert(!t.contains(last));
        assert forall|x: Seq<char>| #[trigger] names.contains(x) && x != last implies t.contains(x) by {
            let i = choose|i: int| 0 <= i < names.len() && names[i] == x;
            assert(i != names.len() - 1);
            assert(t[i] == x);
        }
        // The verdicts.
        assert forall|k: int| 0 <= k < v.len() implies names.contains((#[trigger] v[k]).pair) by {
            if k < vt.len() {
                assert(v[k] == vt[k]);
                assert(t.contains(vt[k].pair));
            }
        }
        assert forall|i: int, j: int| 0 <= i < j < v.len() implies lex_lt((#[trigger] v[i]).pair, (#[trigger] v[j]).pair) by {
            assert(v[i] == vt[i]);
            assert(t.contains(vt[i].pair));
            if j < vt.len() {
                assert(v[j] == vt[j]);
            }
        }
        // The defects.
        assert forall|k: int| 0 <= k < d.len() implies names.contains(defect_pair(#[trigger] d[k])) by {
            if k < dt.len() {
                assert(d[k] == dt[k]);
                assert(t.contains(defect_pair(dt[k])));
            } else {
                assert(d[k] == gs.0[k - dt.len()]);
            }
        }
        assert forall|p: Seq<char>| #[trigger] names.contains(p) implies ((exists|k: int|
            0 <= k < v.len() && (#[trigger] v[k]).pair == p) <==> grade_spec(group(labels, p), p, acts).1 is Some) by {
            if exists|k: int| 0 <= k < v.len() && (#[trigger] v[k]).pair == p {
                let k = choose|k: int| 0 <= k < v.len() && (#[trigger] v[k]).pair == p;
                if k < vt.len() {
                    assert(v[k] == vt[k]);
                    assert(t.contains(vt[k].pair));
                    assert(t.contains(p));
                } else {
                    assert(p == last);
                }
            }
            if grade_spec(group(labels, p), p, acts).1 is Some {
                if p == last {
                    assert(v[v.len() - 1].pair == p);
                } else {
                    assert(t.contains(p));
                    let k = choose|k: int| 0 <= k < vt.len() && (#[trigger] vt[k]).pair == p;
                    assert(v[k] == vt[k]);
                }
            }
        }
        assert forall|p: Seq<char>| #[trigger] names.contains(p) implies ((exists|k: int|
            0 <= k < d.len() && defect_pair(#[trigger] d[k]) == p) <==> grade_spec(group(labels, p), p, acts).0.len() > 0) by {
            if exists|k: int| 0 <= k < d.len() && defect_pair(#[trigger] d[k]) == p {
                let k = choose|k: int| 0 <= k < d.len() && defect_pair(#[trigger] d[k]) == p;
                if k < dt.len() {
                    assert(d[k] == dt[k]);
                    assert(t.contains(defect_pair(dt[k])));
                    assert(t.contains(p));
                } else {
                    assert(d[k] == gs.0[k - dt.len()]);
                    assert(p == last);
                }
            }
            if grade_spec(group(labels, p), p, acts).0.len() > 0 {
                if p == last {
                    assert(d[dt.len() as int] == gs.0[0]);
                } else {
                    assert(t.contains(p));
                    let k = choose|k: int| 0 <= k < dt.len() && defect_pair(#[trigger] dt[k]) == p;
                    assert(d[k] == dt[k]);
                }
            }
        }
    }
}

/// Every labelled pair is accounted for exactly once: it has a verdict in
/// `per_pair` or is reported in `defects`, never both and never neither, and
/// nothing else appears in either list. The verdicts come in ascending order
/// of pair name.
pub proof fn law_each_labelled_pair_is_graded_or_reported(
    labels: Seq<DecisionLabel>,
    outcomes: Seq<ResearchEventOutcome>,
    score: PairedScore,
)
    requires
        exists|n: Seq<Seq<char>>|
            pair_names(n, labels) && score_matches(score, n, labels, acted_seq(outcomes)),
    ensures
        forall|i: int, j: int| 0 <= i < j < score.per_pair@.len() ==> lex_lt(
            (#[trigger] score.per_pair@[i]).pair@,
            (#[trigger] score.per_pair@[j]).pair@,
        ),
        forall|p: Seq<char>| #[trigger] labelled(labels, p) ==> (grades(score, p) <==> !reports(score, p)),
        forall|p: Seq<char>| grades(score, p) || reports(score, p) ==> #[trigger] labelled(labels, p),
{
    let n = choose|n: Seq<Seq<char>>|
        pair_names(n, labels) && score_matches(score, n, labels, acted_seq(outcomes));
    let acts = acted_seq(outcomes);
    lemma_partition_over(n, labels, acts);
    let v = verdicts_over(n, labels, acts);
    let d = defects_over(n, labels, acts);
    assert forall|k: int| 0 <= k < score.per_pair@.len() implies (#[trigger] score.per_pair@[k]).pair@ == v[k].pair by {
        assert(score.per_pair@.map_values(|o: PairOutcome| o@)[k] == v[k]);
    }
    assert forall|k: int| 0 <= k < score.defects@.len() implies defect_pair((#[trigger] score.defects@[k])@) == defect_pair(d[k]) by {
        assert(score.defects@.map_values(|x: PairDefect| x@)[k] == d[k]);
    }
    assert(score.per_pair@.len() == v.len());
    assert(score.defects@.len() == d.len());
    assert forall|i: int, j: int| 0 <= i < j < score.per_pair@.len() implies lex_lt(
        (#[trigger] score.per_pair@[i]).pair@,
        (#[trigger] score.per_pair@[j]).pair@,
    ) by {
        assert(lex_lt(v[i].pair, v[j].pair));
    }
    assert forall|p: Seq<char>| #[trigger] labelled(labels, p) implies (grades(score, p) <==> !reports(score, p)) by {
        assert(n.contains(p));
        lemma_labelled_group(labels, p);
        lemma_grade_spec_shape(group(labels, p), p, acts);
        if grades(score, p) {
            let k = choose|k: int| 0 <= k < score.per_pair@.len() && (#[trigger] score.per_pair@[k]).pair@ == p;
            assert(v[k].pair == p);
        } else if exists|k: int| 0 <= k < v.len() && (#[trigger] v[k]).pair == p {
            let k = choose|k: int| 0 <= k < v.len() && (#[trigger] v[k]).pair == p;
            assert(score.per_pair@[k].pair@ == p);
        }
        if reports(score, p) {
            let k = choose|k: int| 0 <= k < score.defects@.len() && defect_pair((#[trigger] score.defects@[k])@) == p;
            assert(defect_pair(d[k]) == p);
        } else if exists|k: int| 0 <= k < d.len() && defect_pair(#[trigger] d[k]) == p {
            let k = choose|k: int| 0 <= k < d.len() && defect_pair(#[trigger] d[k]) == p;
            assert(defect_pair(score.defects@[k]@) == p);
        }
    }
    assert forall|p: Seq<char>| grades(score, p) || reports(score, p) implies #[trigger] labelled(labels, p) by {
        if grades(score, p) {
            let k = choose|k: int| 0 <= k < score.per_pair@.len() && (#[trigger] score.per_pair@[k]).pair@ == p;
            assert(n.contains(v[k].pair));
        } else {
            let k = choose|k: int| 0 <= k < score.defects@.len() && defect_pair((#[trigger] score.defects@[k])@) == p;
            assert(n.contains(defect_pair(d[k])));
        }
    }
}

/// Result of [`score_false_rejections`].
#[derive(Debug, Clone, PartialEq, Eq)]
pub struct FalseRejectionScore {
    /// Claim-waits that had authored ground truth and were graded.
    pub scored: usize,
    /// Graded waits on claims that went on to stand — the caution tax.
    pub false_rejections: usize,
    /// Graded waits on claims that were later withdrawn: correct restraint.
    pub excused: usize,
    /// Waits on claims explicitly labeled `Unresolved`.
    pub unresolved: usize,
    /// Claims waited on but carrying no label, ascending and distinct.
    pub unlabeled: Vec<String>,
}

impl Default for FalseRejectionScore {
    fn default() -> (r: Self)
        ensures
            r.scored == 0 && r.false_rejections == 0 && r.excused == 0 && r.unresolved == 0,
            r.unlabeled@.len() == 0,
    {
        FalseRejectionScore { scored: 0, false_rejections: 0, excused: 0, unresolved: 0, unlabeled: Vec::new() }
    }
}

/// Result of [`score_false_acceptances`].
#[derive(Debug, Clone, PartialEq, Eq)]
pub struct FalseAcceptanceScore {
    /// Accepts that had authored ground truth and were graded.
    pub scored: usize,
    /// Graded accepts on claims that did not hold up.
    pub false_acceptances: usize,
    /// Graded accepts on claims that stood: committing was correct.
    pub warranted: usize,
    /// Accepts on claims explicitly labeled `Unresolved`.
    pub unresolved: usize,
    /// Accepted claims carrying no label, ascending and distinct.
    pub unlabeled: Vec<String>,
}

impl Default for FalseAcceptanceScore {
    fn default() -> (r: Self)
        ensures
            r.scored == 0 && r.false_acceptances == 0 && r.warranted == 0 && r.unresolved == 0,
            r.unlabeled@.len() == 0,
    {
        FalseAcceptanceScore { scored: 0, false_acceptances: 0, warranted: 0, unresolved: 0, unlabeled: Vec::new() }
    }
}

/// The authored fate of each labeled proposition; a later label for the same
/// proposition replaces an earlier one.
pub open spec fn claim_truth(claims: Seq<ClaimLabel>) -> Map<Seq<char>, ClaimOutcome>
    decreases claims.len(),
{
    if claims.len() == 0 {
        Map::empty()
    } else {
        claim_truth(claims.drop_last()).insert(claims.last().proposition@, claims.last().outcome)
    }
}

/// Some action of the list is a `Wait`.
pub open spec fn has_wait(actions: Seq<Action>) -> bool {
    exists|i: int| 0 <= i < actions.len() && (#[trigger] actions[i]) is Wait
}

/// The propositions touched by every event whose outcome included a `Wait`,
/// in trace order, repeats kept.
pub open spec fn waited_claims(outcomes: Seq<ResearchEventOutcome>) -> Seq<Seq<char>>
    decreases outcomes.len(),
{
    if outcomes.len() == 0 {
        Seq::empty()
    } else {
        waited_claims(outcomes.drop_last()) + if has_wait(outcomes.last().actions@) {
            touched(outcomes.last().event.payload)
        } else {
            Seq::empty()
        }
    }
}

/// The propositions of the `Accept` actions in a list, in order.
pub open spec fn accepts_in(actions: Seq<Action>) -> Seq<Seq<char>>
    decreases actions.len(),
{
    if actions.len() == 0 {
        Seq::empty()
    } else {
        accepts_in(actions.drop_last()) + match actions.last() {
            Action::Accept { proposition, .. } => seq![proposition@],
            _ => Seq::empty(),
        }
    }
}

/// The propositions of every `Accept` across the outcomes, in order.
pub open spec fn accepted_claims(outcomes: Seq<ResearchEventOutcome>) -> Seq<Seq<char>>
    decreases outcomes.len(),
{
    if outcomes.len() == 0 {
        Seq::empty()
    } else {
        accepted_claims(outcomes.drop_last()) + accepts_in(outcomes.last().actions@)
    }
}

/// How many of `ps` carry the authored fate `o`.
pub open spec fn count_fate(ps: Seq<Seq<char>>, truth: Map<Seq<char>, ClaimOutcome>, o: ClaimOutcome) -> nat
    decreases ps.len(),
{
    if ps.len() == 0 {
        0
    } else {
        count_fate(ps.drop_last(), truth, o) + if truth.contains_key(ps.last()) && truth[ps.last()] == o {
            1nat
        } else {
            0nat
        }
    }
}

/// `us` lists, ascending and without repeats, exactly the members of `ps`
/// that carry no authored fate.
pub open spec fn unlabeled_listing(us: Seq<Seq<char>>, ps: Seq<Seq<char>>, truth: Map<Seq<char>, ClaimOutcome>) -> bool {
    &&& strictly_ascending(us)
    &&& forall|p: Seq<char>| #[trigger] us.contains(p) <==> (ps.contains(p) && !truth.contains_key(p))
}

/// Whether the action list includes a `Wait`.
pub fn outcome_waited(actions: &[Action]) -> (r: bool)
    ensures
        r == has_wait(actions@),
{
    let mut i: usize = 0;
    while i < actions.len()
        invariant
            i <= actions@.len(),
            forall|j: int| 0 <= j < i ==> !((#[trigger] actions@[j]) is Wait),
        decreases actions@.len() - i,
    {
        if let Action::Wait = &actions[i] {
            return true;
        }
        i = i + 1;
    }
    false
}

fn truth_table(claims: &[ClaimLabel]) -> (m: KeyMap<ClaimOutcome>)
    ensures
        m.wf(),
        m.map_view() == claim_truth(claims@),
{
    let mut m: KeyMap<ClaimOutcome> = KeyMap::new();
    let mut i: usize = 0;
    while i < claims.len()
        invariant
            i <= claims@.len(),
            m.wf(),
            m.map_view() == claim_truth(claims@.take(i as int)),
        decreases claims@.len() - i,
    {
        m.insert(claims[i].proposition.clone(), claims[i].outcome);
        proof {
            lemma_take_step(claims@, i as int);
        }
        i = i + 1;
    }
    proof {
        assert(claims@.take(claims@.len() as int) =~= claims@);
    }
    m
}

proof fn lemma_count_fate_push(ps: Seq<Seq<char>>, x: Seq<char>, truth: Map<Seq<char>, ClaimOutcome>, o: ClaimOutcome)
    ensures
        count_fate(ps.push(x), truth, o) == count_fate(ps, truth, o) + if truth.contains_key(x)
            && truth[x] == o {
            1nat
        } else {
            0nat
        },
{
    assert(ps.push(x).drop_last() =~= ps);
}

proof fn lemma_waited_mono(s: Seq<ResearchEventOutcome>, i: int, j: int)
    requires
        0 <= i <= j <= s.len(),
    ensures
        waited_claims(s.take(i)).len() <= waited_claims(s.take(j)).len(),
    decreases j - i,
{
    if i < j {
        lemma_waited_mono(s, i, j - 1);
        lemma_take_step(s, j - 1);
    }
}

proof fn lemma_accepted_mono(s: Seq<ResearchEventOutcome>, i: int, j: int)
    requires
        0 <= i <= j <= s.len(),
    ensures
        accepted_claims(s.take(i)).len() <= accepted_claims(s.take(j)).len(),
    decreases j - i,
{
    if i < j {
        lemma_accepted_mono(s, i, j - 1);
        lemma_take_step(s, j - 1);
    }
}

/// Appending the raw unlabeled list keeps the "unlabeled members" relation.
proof fn lemma_unlabeled_step(
    raw: Seq<Seq<char>>,
    ps: Seq<Seq<char>>,
    x: Seq<char>,
    truth: Map<Seq<char>, ClaimOutcome>,
)
    requires
        forall|p: Seq<char>| #[trigger] raw.contains(p) <==> (ps.contains(p) && !truth.contains_key(p)),
    ensures
        truth.contains_key(x) ==> forall|p: Seq<char>|
            #[trigger] raw.contains(p) <==> (ps.push(x).contains(p) && !truth.contains_key(p)),
        !truth.contains_key(x) ==> forall|p: Seq<char>|
            #[trigger] raw.push(x).contains(p) <==> (ps.push(x).contains(p) && !truth.contains_key(p)),
{
    let raw2 = if truth.contains_key(x) { raw } else { raw.push(x) };
    let ps2 = ps.push(x);
    assert forall|p: Seq<char>| #[trigger] raw2.contains(p) <==> (ps2.contains(p) && !truth.contains_key(p)) by {
        if ps.contains(p) {
            let j = choose|j: int| 0 <= j < ps.len() && ps[j] == p;
            assert(ps2[j] == p);
        }
        if ps2.contains(p) && p != x {
            let j = choose|j: int| 0 <= j < ps2.len() && ps2[j] == p;
            assert(ps[j] == p);
        }
        if p == x {
            assert(ps2[ps.len() as int] == p);
        }
        if raw.contains(p) {
            let j = choose|j: int| 0 <= j < raw.len() && raw[j] == p;
            assert(raw.push(x)[j] == p);
        }
        if raw.push(x).contains(p) && p != x {
            let j = choose|j: int| 0 <= j < raw.push(x).len() && raw.push(x)[j] == p;
            assert(raw[j] == p);
        }
        if !truth.contains_key(x) {
            assert(raw.push(x)[raw.len() as int] == x);
        }
    }
}

/// Arm-independent false-rejection scoring against authored claim fates.
///
/// Every outcome that includes a `Wait` is a decision to withhold on the
/// propositions its event touched (none for a goal update). Each such
/// proposition is graded by its authored fate: `Stood` is a false rejection,
/// `Withdrawn` is excused, `Unresolved` is counted apart, and a proposition
/// with no label is reported in `unlabeled`, never excused. Nothing the arm
/// believed enters the verdict.
pub fn score_false_rejections(outcomes: &[ResearchEventOutcome], claims: &[ClaimLabel]) -> (r: FalseRejectionScore)
    requires
        waited_claims(outcomes@).len() <= usize::MAX,
    ensures
        r.false_rejections == count_fate(waited_claims(outcomes@), claim_truth(claims@), ClaimOutcome::Stood),
        r.excused == count_fate(waited_claims(outcomes@), claim_truth(claims@), ClaimOutcome::Withdrawn),
        r.scored == r.false_rejections + r.excused,
        r.unresolved == count_fate(waited_claims(outcomes@), claim_truth(claims@), ClaimOutcome::Unresolved),
        unlabeled_listing(string_views(r.unlabeled@), waited_claims(outcomes@), claim_truth(claims@)),
{
    let truth = truth_table(claims);
    let ghost t = claim_truth(claims@);
    let ghost total = waited_claims(outcomes@);
    let mut stood: usize = 0;
    let mut withdrawn: usize = 0;
    let mut unresolved: usize = 0;
    let mut raw: Vec<String> = Vec::new();
    let mut i: usize = 0;
    while i < outcomes.len()
        invariant
            i <= outcomes@.len(),
            truth.wf(),
            truth.map_view() == t,
            t == claim_truth(claims@),
            total == waited_claims(outcomes@),
            total.len() <= usize::MAX,
            stood == count_fate(waited_claims(outcomes@.take(i as int)), t, ClaimOutcome::Stood),
            withdrawn == count_fate(waited_claims(outcomes@.take(i as int)), t, ClaimOutcome::Withdrawn),
            unresolved == count_fate(waited_claims(outcomes@.take(i as int)), t, ClaimOutcome::Unresolved),
            stood + withdrawn + unresolved <= waited_claims(outcomes@.take(i as int)).len(),
            forall|p: Seq<char>| #[trigger] string_views(raw@).contains(p) <==> (waited_claims(outcomes@.take(i as int)).contains(p)
                && !t.contains_key(p)),
        decreases outcomes@.len() - i,
    {
        let ghost before = waited_claims(outcomes@.take(i as int));
        proof {
            lemma_take_step(outcomes@, i as int);
            lemma_waited_mono(outcomes@, i + 1, outcomes@.len() as int);
            assert(outcomes@.take(outcomes@.len() as int) =~= outcomes@);
        }
        let o = &outcomes[i];
        if outcome_waited(o.actions.as_slice()) {
            let tp = o.event.touched_propositions();
            let ghost tv = string_views(tp@);
            assert(tv == touched(o.event.payload));
            let mut k: usize = 0;
            while k < tp.len()
                invariant
                    k <= tp@.len(),
                    tv == string_views(tp@),
                    truth.wf(),
                    truth.map_view() == t,
                    before.len() + tv.len() <= usize::MAX,
                    stood == count_fate(before + tv.take(k as int), t, ClaimOutcome::Stood),
                    withdrawn == count_fate(before + tv.take(k as int), t, ClaimOutcome::Withdrawn),
                    unresolved == count_fate(before + tv.take(k as int), t, ClaimOutcome::Unresolved),
                    stood + withdrawn + unresolved <= before.len() + k,
                    forall|p: Seq<char>| #[trigger] string_views(raw@).contains(p) <==> ((before + tv.take(k as int)).contains(p)
                        && !t.contains_key(p)),
                decreases tp@.len() - k,
            {
                let prop = &tp[k];
                let ghost x = prop@;
                let ghost seen = before + tv.take(k as int);
                proof {
                    assert(tv[k as int] == x);
                    assert(before + tv.take(k + 1) =~= seen.push(x));
                    lemma_count_fate_push(seen, x, t, ClaimOutcome::Stood);
                    lemma_count_fate_push(seen, x, t, ClaimOutcome::Withdrawn);
                    lemma_count_fate_push(seen, x, t, ClaimOutcome::Unresolved);
                    lemma_unlabeled_step(string_views(raw@), seen, x, t);
                }
                let ghost raw_before = raw@;
                match truth.get(prop.as_str()) {
                    Some(ClaimOutcome::Stood) => {
                        stood = stood + 1;
                    },
                    Some(ClaimOutcome::Withdrawn) => {
                        withdrawn = withdrawn + 1;
                    },
                    Some(ClaimOutcome::Unresolved) => {
                        unresolved = unresolved + 1;
                    },
                    None => {
                        raw.push(prop.clone());
                        proof {
                            assert(string_views(raw@) =~= string_views(raw_before).push(x));
                        }
                    },
                }
                k = k + 1;
            }
            proof {
                assert(tv.take(tv.len() as int) =~= tv);
                assert(waited_claims(outcomes@.take(i + 1)) == before + tv);
            }
        } else {
            proof {
                assert(waited_claims(outcomes@.take(i + 1)) =~= before);
            }
        }
        i = i + 1;
    }
    proof {
        assert(outcomes@.take(outcomes@.len() as int) =~= outcomes@);
    }
    let unlabeled = sorted_distinct(&raw);
    FalseRejectionScore {
        scored: stood + withdrawn,
        false_rejections: stood,
        excused: withdrawn,
        unresolved,
        unlabeled,
    }
}


/// The waits and accepts of a run are read off its events and the actions
/// recommended for them: two runs that differ only in what each arm came to
/// believe (their state summaries and belief revisions) wait on and accept
/// the same claims, in the same order.
pub proof fn law_waits_and_accepts_ignore_the_arms_beliefs(
    outcomes_a: Seq<ResearchEventOutcome>,
    outcomes_b: Seq<ResearchEventOutcome>,
)
    requires
        outcomes_a.len() == outcomes_b.len(),
        forall|i: int| 0 <= i < outcomes_a.len() ==> (#[trigger] outcomes_a[i]).event == outcomes_b[i].event
            && outcomes_a[i].actions@ == outcomes_b[i].actions@,
    ensures
        waited_claims(outcomes_a) == waited_claims(outcomes_b),
        accepted_claims(outcomes_a) == accepted_claims(outcomes_b),
    decreases outcomes_a.len(),
{
    if outcomes_a.len() > 0 {
        let n = outcomes_a.len() - 1;
        assert(outcomes_a[n].event == outcomes_b[n].event);
        law_waits_and_accepts_ignore_the_arms_beliefs(outcomes_a.drop_last(), outcomes_b.drop_last());
    }
}

/// False rejections are read off the waits and the authored labels alone:
/// two runs whose waits touch the same claims in the same order score the
/// same, whatever each arm came to believe (the scorer is never handed the
/// final beliefs). Every wait that was graded is a false rejection or
/// excused, and the unlabeled claims are listed once each, ascending.
pub proof fn law_false_rejections_read_only_the_waits(
    outcomes_a: Seq<ResearchEventOutcome>,
    outcomes_b: Seq<ResearchEventOutcome>,
    claims: Seq<ClaimLabel>,
    a: FalseRejectionScore,
    b: FalseRejectionScore,
)
    requires
        waited_claims(outcomes_a) == waited_claims(outcomes_b),
        a.false_rejections == count_fate(waited_claims(outcomes_a), claim_truth(claims), ClaimOutcome::Stood),
        a.excused == count_fate(waited_claims(outcomes_a), claim_truth(claims), ClaimOutcome::Withdrawn),
        a.scored == a.false_rejections + a.excused,
        a.unresolved == count_fate(waited_claims(outcomes_a), claim_truth(claims), ClaimOutcome::Unresolved),
        unlabeled_listing(string_views(a.unlabeled@), waited_claims(outcomes_a), claim_truth(claims)),
        b.false_rejections == count_fate(waited_claims(outcomes_b), claim_truth(claims), ClaimOutcome::Stood),
        b.excused == count_fate(waited_claims(outcomes_b), claim_truth(claims), ClaimOutcome::Withdrawn),
        b.scored == b.false_rejections + b.excused,
        b.unresolved == count_fate(waited_claims(outcomes_b), claim_truth(claims), ClaimOutcome::Unresolved),
        unlabeled_listing(string_views(b.unlabeled@), waited_claims(outcomes_b), claim_truth(claims)),
    ensures
        a.scored == b.scored,
        a.false_rejections == b.false_rejections,
        a.excused == b.excused,
        a.unresolved == b.unresolved,
        string_views(a.unlabeled@) == string_views(b.unlabeled@),
        a.scored == a.false_rejections + a.excused,
        strictly_ascending(string_views(a.unlabeled@)),
{
    let ua = string_views(a.unlabeled@);
    let ub = string_views(b.unlabeled@);
    assert forall|p: Seq<char>| ua.contains(p) <==> ub.contains(p) by {
        assert(ua.contains(p) <==> (waited_claims(outcomes_a).contains(p) && !claim_truth(claims).contains_key(p)));
        assert(ub.contains(p) <==> (waited_claims(outcomes_b).contains(p) && !claim_truth(claims).contains_key(p)));
    }
    lemma_ascending_unique(ua, ub);
}

/// False acceptances are read off the accepts and the authored labels alone,
/// in the same way: two runs that accept the same claims in the same order
/// score the same, whatever each arm came to believe.
pub proof fn law_false_acceptances_read_only_the_accepts(
    outcomes_a: Seq<ResearchEventOutcome>,
    outcomes_b: Seq<ResearchEventOutcome>,
    claims: Seq<ClaimLabel>,
    a: FalseAcceptanceScore,
    b: FalseAcceptanceScore,
)
    requires
        accepted_claims(outcomes_a) == accepted_claims(outcomes_b),
        a.false_acceptances == count_fate(accepted_claims(outcomes_a), claim_truth(claims), ClaimOutcome::Withdrawn),
        a.warranted == count_fate(accepted_claims(outcomes_a), claim_truth(claims), ClaimOutcome::Stood),
        a.scored == a.false_acceptances + a.warranted,
        a.unresolved == count_fate(accepted_claims(outcomes_a), claim_truth(claims), ClaimOutcome::Unresolved),
        unlabeled_listing(string_views(a.unlabeled@), accepted_claims(outcomes_a), claim_truth(claims)),
        b.false_acceptances == count_fate(accepted_claims(outcomes_b), claim_truth(claims), ClaimOutcome::Withdrawn),
        b.warranted == count_fate(accepted_claims(outcomes_b), claim_truth(claims), ClaimOutcome::Stood),
        b.scored == b.false_acceptances + b.warranted,
        b.unresolved == count_fate(accepted_claims(outcomes_b), claim_truth(claims), ClaimOutcome::Unresolved),
        unlabeled_listing(string_views(b.unlabeled@), accepted_claims(outcomes_b), claim_truth(claims)),
    ensures
        a.scored == b.scored,
        a.false_acceptances == b.false_acceptances,
        a.warranted == b.warranted,
        a.unresolved == b.unresolved,
        string_views(a.unlabeled@) == string_views(b.unlabeled@),
{
    let ua = string_views(a.unlabeled@);
    let ub = string_views(b.unlabeled@);
    assert forall|p: Seq<char>| ua.contains(p) <==> ub.contains(p) by {
        assert(ua.contains(p) <==> (accepted_claims(outcomes_a).contains(p) && !claim_truth(claims).contains_key(p)));
        assert(ub.contains(p) <==> (accepted_claims(outcomes_b).contains(p) && !claim_truth(claims).contains_key(p)));
    }
    lemma_ascending_unique(ua, ub);
}

/// Arm-independent false-acceptance scoring against authored claim fates.
///
/// Every `Accept` is a commitment to the proposition it names: `Withdrawn`
/// makes it a false acceptance, `Stood` makes it warranted, `Unresolved` is
/// counted apart, and a proposition with no label is reported in `unlabeled`,
/// never forgiven. Nothing the arm believed enters the verdict.
pub fn score_false_acceptances(outcomes: &[ResearchEventOutcome], claims: &[ClaimLabel]) -> (r: FalseAcceptanceScore)
    requires
        accepted_claims(outcomes@).len() <= usize::MAX,
    ensures
        r.false_acceptances == count_fate(accepted_claims(outcomes@), claim_truth(claims@), ClaimOutcome::Withdrawn),
        r.warranted == count_fate(accepted_claims(outcomes@), claim_truth(claims@), ClaimOutcome::Stood),
        r.scored == r.false_acceptances + r.warranted,
        r.unresolved == count_fate(accepted_claims(outcomes@), claim_truth(claims@), ClaimOutcome::Unresolved),
        unlabeled_listing(string_views(r.unlabeled@), accepted_claims(outcomes@), claim_truth(claims@)),
{
    let truth = truth_table(claims);
    let ghost t = claim_truth(claims@);
    let ghost total = accepted_claims(outcomes@);
    let mut stood: usize = 0;
    let mut withdrawn: usize = 0;
    let mut unresolved: usize = 0;
    let mut raw: Vec<String> = Vec::new();
    let mut i: usize = 0;
    while i < outcomes.len()
        invariant
            i <= outcomes@.len(),
            truth.wf(),
            truth.map_view() == t,
            t == claim_truth(claims@),
            total == accepted_claims(outcomes@),
            total.len() <= usize::MAX,
            stood == count_fate(accepted_claims(outcomes@.take(i as int)), t, ClaimOutcome::Stood),
            withdrawn == count_fate(accepted_claims(outcomes@.take(i as int)), t, ClaimOutcome::Withdrawn),
            unresolved == count_fate(accepted_claims(outcomes@.take(i as int)), t, ClaimOutcome::Unresolved),
            stood + withdrawn + unresolved <= accepted_claims(outcomes@.take(i as int)).len(),
            forall|p: Seq<char>| #[trigger] string_views(raw@).contains(p) <==> (accepted_claims(outcomes@.take(i as int)).contains(p)
                && !t.contains_key(p)),
        decreases outcomes@.len() - i,
    {
        let ghost before = accepted_claims(outcomes@.take(i as int));
        proof {
            lemma_take_step(outcomes@, i as int);
            lemma_accepted_mono(outcomes@, i + 1, outcomes@.len() as int);
            assert(outcomes@.take(outcomes@.len() as int) =~= outcomes@);
        }
        let actions = &outcomes[i].actions;
        let ghost av = actions@;
        let mut k: usize = 0;
        while k < actions.len()
            invariant
                k <= av.len(),
                av == actions@,
                truth.wf(),
                truth.map_view() == t,
                before.len() + accepts_in(av).len() <= usize::MAX,
                stood == count_fate(before + accepts_in(av.take(k as int)), t, ClaimOutcome::Stood),
                withdrawn == count_fate(before + accepts_in(av.take(k as int)), t, ClaimOutcome::Withdrawn),
                unresolved == count_fate(before + accepts_in(av.take(k as int)), t, ClaimOutcome::Unresolved),
                stood + withdrawn + unresolved <= before.len() + accepts_in(av.take(k as int)).len(),
                forall|p: Seq<char>| #[trigger] string_views(raw@).contains(p) <==> ((before + accepts_in(av.take(k as int))).contains(p)
                    && !t.contains_key(p)),
            decreases av.len() - k,
        {
            let ghost seen = before + accepts_in(av.take(k as int));
            proof {
                lemma_take_step(av, k as int);
                lemma_accepts_mono(av, k + 1, av.len() as int);
                assert(av.take(av.len() as int) =~= av);
            }
            if let Action::Accept { proposition, .. } = &actions[k] {
                let ghost x = proposition@;
                proof {
                    assert(accepts_in(av.take(k + 1)) == accepts_in(av.take(k as int)) + seq![x]);
                    assert(before + accepts_in(av.take(k + 1)) =~= seen.push(x));
                    lemma_count_fate_push(seen, x, t, ClaimOutcome::Stood);
                    lemma_count_fate_push(seen, x, t, ClaimOutcome::Withdrawn);
                    lemma_count_fate_push(seen, x, t, ClaimOutcome::Unresolved);
                    lemma_unlabeled_step(string_views(raw@), seen, x, t);
                }
                let ghost raw_before = raw@;
                match truth.get(proposition.as_str()) {
                    Some(ClaimOutcome::Stood) => {
                        stood = stood + 1;
                    },
                    Some(ClaimOutcome::Withdrawn) => {
                        withdrawn = withdrawn + 1;
                    },
                    Some(ClaimOutcome::Unresolved) => {
                        unresolved = unresolved + 1;
                    },
                    None => {
                        raw.push(proposition.clone());
                        proof {
                            assert(string_views(raw@) =~= string_views(raw_before).push(x));
                        }
                    },
                }
            } else {
                proof {
                    assert(accepts_in(av.take(k + 1)) =~= accepts_in(av.take(k as int)));
                    assert(before + accepts_in(av.take(k + 1)) =~= seen);
                }
            }
            k = k + 1;
        }
        proof {
            assert(av.take(av.len() as int) =~= av);
            assert(accepted_claims(outcomes@.take(i + 1)) == before + accepts_in(av));
        }
        i = i + 1;
    }
    proof {
        assert(outcomes@.take(outcomes@.len() as int) =~= outcomes@);
    }
    let unlabeled = sorted_distinct(&raw);
    FalseAcceptanceScore {
        scored: stood + withdrawn,
        false_acceptances: withdrawn,
        warranted: stood,
        unresolved,
        unlabeled,
    }
}

proof fn lemma_accepts_mono(s: Seq<Action>, i: int, j: int)
    requires
        0 <= i <= j <= s.len(),
    ensures
        accepts_in(s.take(i)).len() <= accepts_in(s.take(j)).len(),
    decreases j - i,
{
    if i < j {
        lemma_accepts_mono(s, i, j - 1);
        lemma_take_step(s, j - 1);
    }
}


/// The abstention rate conditioned on whether abstaining was the right call,
/// derived from the graded pairs. Each rate is `numerator / denominator`
/// over the halves named; a rate whose condition was never exercised has no
/// value, which is not a rate of zero.
#[derive(Debug, Clone, Copy, PartialEq, Eq, Structural)]
pub struct ConditionedAbstention {
    /// Labeled `Abstain` halves — the condition under which abstaining is right.
    pub abstain_halves: usize,
    /// Of those, the ones where the policy did abstain.
    pub abstained_when_warranted: usize,
    /// Labeled `Act` halves — the condition under which abstaining is an error.
    pub act_halves: usize,
    /// Of those, the ones where the policy abstained anyway.
    pub abstained_when_unwarranted: usize,
}

impl ConditionedAbstention {
    /// `abstained_when_warranted / abstain_halves`, or `None` when no abstain
    /// half was graded.
    pub fn rate_when_warranted(&self) -> (r: Option<(usize, usize)>)
        ensures
            r == if self.abstain_halves > 0 {
                Some((self.abstained_when_warranted, self.abstain_halves))
            } else {
                None::<(usize, usize)>
            },
    {
        if self.abstain_halves > 0 {
            Some((self.abstained_when_warranted, self.abstain_halves))
        } else {
            None
        }
    }

    /// `abstained_when_unwarranted / act_halves`, or `None` when no act half
    /// was graded.
    pub fn rate_when_unwarranted(&self) -> (r: Option<(usize, usize)>)
        ensures
            r == if self.act_halves > 0 {
                Some((self.abstained_when_unwarranted, self.act_halves))
            } else {
                None::<(usize, usize)>
            },
    {
        if self.act_halves > 0 {
            Some((self.abstained_when_unwarranted, self.act_halves))
        } else {
            None
        }
    }
}

impl PairedScore {
    /// The conditioned abstention rate, from the same graded pairs: under the
    /// binary act/abstain taxonomy, abstaining on an `Act` half is exactly
    /// getting that half wrong, and abstaining on an `Abstain` half is getting
    /// it right.
    pub fn conditioned_abstention(&self) -> (c: ConditionedAbstention)
        requires
            self.act_correct <= self.act_total,
        ensures
            c.abstain_halves == self.abstain_total,
            c.abstained_when_warranted == self.abstain_correct,
            c.act_halves == self.act_total,
            c.abstained_when_unwarranted == self.act_total - self.act_correct,
    {
        ConditionedAbstention {
            abstain_halves: self.abstain_total,
            abstained_when_warranted: self.abstain_correct,
            act_halves: self.act_total,
            abstained_when_unwarranted: self.act_total - self.act_correct,
        }
    }
}

/// One arm's grades, tagged with the arm and the model that produced them.
#[derive(Debug, Clone, PartialEq, Eq)]
pub struct PairedArm {
    /// Stable identifier for this arm.
    pub arm: String,
    /// The model this arm ran under; `None` for an arm with no policy.
    pub priority_model: Option<PriorityModel>,
    /// The paired score and its act/abstain decomposition.
    pub paired: PairedScore,
    /// The conditioned abstention rate derived from `paired`.
    pub conditioned_abstention: ConditionedAbstention,
    /// False rejections against authored claim fates.
    pub false_rejections: FalseRejectionScore,
    /// False acceptances against authored claim fates.
    pub false_acceptances: FalseAcceptanceScore,
}

/// `r` is the grading of the arm named `arm`, run under `priority_model`,
/// whose replay produced `outcomes`, against the shared `labels` and
/// `claims`.
pub open spec fn arm_graded(
    r: PairedArm,
    arm: Seq<char>,
    priority_model: Option<PriorityModel>,
    outcomes: Seq<ResearchEventOutcome>,
    labels: Seq<DecisionLabel>,
    claims: Seq<ClaimLabel>,
) -> bool {
    &&& r.arm@ == arm
    &&& r.priority_model == priority_model
    &&& exists|names: Seq<Seq<char>>|
        pair_names(names, labels) && score_matches(r.paired, names, labels, acted_seq(outcomes))
    &&& r.conditioned_abstention.abstain_halves == r.paired.abstain_total
    &&& r.conditioned_abstention.abstained_when_warranted == r.paired.abstain_correct
    &&& r.conditioned_abstention.act_halves == r.paired.act_total
    &&& r.conditioned_abstention.abstained_when_unwarranted == r.paired.act_total - r.paired.act_correct
    &&& r.false_rejections.false_rejections == count_fate(waited_claims(outcomes), claim_truth(claims), ClaimOutcome::Stood)
    &&& r.false_rejections.excused == count_fate(waited_claims(outcomes), claim_truth(claims), ClaimOutcome::Withdrawn)
    &&& r.false_rejections.scored == r.false_rejections.false_rejections + r.false_rejections.excused
    &&& r.false_rejections.unresolved == count_fate(waited_claims(outcomes), claim_truth(claims), ClaimOutcome::Unresolved)
    &&& unlabeled_listing(string_views(r.false_rejections.unlabeled@), waited_claims(outcomes), claim_truth(claims))
    &&& r.false_acceptances.false_acceptances == count_fate(accepted_claims(outcomes), claim_truth(claims), ClaimOutcome::Withdrawn)
    &&& r.false_acceptances.warranted == count_fate(accepted_claims(outcomes), claim_truth(claims), ClaimOutcome::Stood)
    &&& r.false_acceptances.scored == r.false_acceptances.false_acceptances + r.false_acceptances.warranted
    &&& r.false_acceptances.unresolved == count_fate(accepted_claims(outcomes), claim_truth(claims), ClaimOutcome::Unresolved)
    &&& unlabeled_listing(string_views(r.false_acceptances.unlabeled@), accepted_claims(outcomes), claim_truth(claims))
}

/// Grade one arm's outcomes against the shared labels and claim fates.
pub fn grade_arm(
    arm: &str,
    priority_model: Option<PriorityModel>,
    outcomes: &[ResearchEventOutcome],
    labels: &[DecisionLabel],
    claims: &[ClaimLabel],
) -> (r: PairedArm)
    requires
        waited_claims(outcomes@).len() <= usize::MAX,
        accepted_claims(outcomes@).len() <= usize::MAX,
    ensures
        arm_graded(r, arm@, priority_model, outcomes@, labels@, claims@),
{
    let paired = score_paired(outcomes, labels);
    proof {
        let n = choose|n: Seq<Seq<char>>|
            pair_names(n, labels@) && score_matches(paired, n, labels@, acted_seq(outcomes@));
        lemma_count_and_le(verdicts_over(n, labels@, acted_seq(outcomes@)));
        lemma_count_le_len(verdicts_over(n, labels@, acted_seq(outcomes@)), |o: PairOutcomeView| o.act_correct);
    }
    let conditioned_abstention = paired.conditioned_abstention();
    PairedArm {
        arm: owned(arm),
        priority_model,
        conditioned_abstention,
        paired,
        false_rejections: score_false_rejections(outcomes, claims),
        false_acceptances: score_false_acceptances(outcomes, claims),
    }
}

proof fn lemma_count_le_len(v: Seq<PairOutcomeView>, f: spec_fn(PairOutcomeView) -> bool)
    ensures
        count_where(v, f) <= v.len(),
    decreases v.len(),
{
    if v.len() > 0 {
        lemma_count_le_len(v.drop_last(), f);
    }
}


/// A pair the arms did not agree on, and how each fared (`None`: the pair
/// was ungradeable in that arm).
#[derive(Debug, Clone, PartialEq, Eq)]
pub struct PairSeparation {
    pub pair: String,
    /// The null baseline.
    pub unassisted: Option<bool>,
    pub recency_decay: Option<bool>,
    pub lie: Option<bool>,
    pub subjective_logic: Option<bool>,
}

/// A separation as plain values.
pub struct PairSeparationView {
    pub pair: Seq<char>,
    pub unassisted: Option<bool>,
    pub recency_decay: Option<bool>,
    pub lie: Option<bool>,
    pub subjective_logic: Option<bool>,
}

impl View for PairSeparation {
    type V = PairSeparationView;

    open spec fn view(&self) -> PairSeparationView {
        PairSeparationView {
            pair: self.pair@,
            unassisted: self.unassisted,
            recency_decay: self.recency_decay,
            lie: self.lie,
            subjective_logic: self.subjective_logic,
        }
    }
}

/// Each graded pair's both-halves verdict; a later entry for the same pair
/// replaces an earlier one.
pub open spec fn verdict_map(pp: Seq<PairOutcome>) -> Map<Seq<char>, bool>
    decreases pp.len(),
{
    if pp.len() == 0 {
        Map::empty()
    } else {
        verdict_map(pp.drop_last()).insert(
            pp.last().pair@,
            pp.last().act_correct && pp.last().abstain_correct,
        )
    }
}

/// The verdict stored for `p`, if any.
pub open spec fn lookup(m: Map<Seq<char>, bool>, p: Seq<char>) -> Option<bool> {
    if m.contains_key(p) {
        Some(m[p])
    } else {
        None
    }
}

/// The separations among `names`, in that order: every name on which the
/// four arms' verdicts are not all equal.
pub open spec fn separations_over(
    names: Seq<Seq<char>>,
    u: Map<Seq<char>, bool>,
    d: Map<Seq<char>, bool>,
    l: Map<Seq<char>, bool>,
    s: Map<Seq<char>, bool>,
) -> Seq<PairSeparationView>
    decreases names.len(),
{
    if names.len() == 0 {
        Seq::empty()
    } else {
        let before = separations_over(names.drop_last(), u, d, l, s);
        let p = names.last();
        let (uv, dv, lv, sv) = (lookup(u, p), lookup(d, p), lookup(l, p), lookup(s, p));
        if uv == dv && dv == lv && lv == sv {
            before
        } else {
            before.push(
                PairSeparationView {
                    pair: p,
                    unassisted: uv,
                    recency_decay: dv,
                    lie: lv,
                    subjective_logic: sv,
                },
            )
        }
    }
}

pub(crate) fn verdicts(arm: &PairedArm) -> (m: KeyMap<bool>)
    ensures
        m.wf(),
        m.map_view() == verdict_map(arm.paired.per_pair@),
{
    let pp = &arm.paired.per_pair;
    let mut m: KeyMap<bool> = KeyMap::new();
    let mut i: usize = 0;
    while i < pp.len()
        invariant
            i <= pp@.len(),
            m.wf(),
            m.map_view() == verdict_map(pp@.take(i as int)),
        decreases pp@.len() - i,
    {
        let b = pp[i].both_correct();
        m.insert(pp[i].pair.clone(), b);
        proof {
            lemma_take_step(pp@, i as int);
        }
        i = i + 1;
    }
    proof {
        assert(pp@.take(pp@.len() as int) =~= pp@);
    }
    m
}

proof fn lemma_contains_concat(a: Seq<Seq<char>>, b: Seq<Seq<char>>, p: Seq<char>)
    ensures
        (a + b).contains(p) <==> (a.contains(p) || b.contains(p)),
{
    if a.contains(p) {
        let j = choose|j: int| 0 <= j < a.len() && a[j] == p;
        assert((a + b)[j] == p);
    }
    if b.contains(p) {
        let j = choose|j: int| 0 <= j < b.len() && b[j] == p;
        assert((a + b)[a.len() + j] == p);
    }
    if (a + b).contains(p) {
        let j = choose|j: int| 0 <= j < (a + b).len() && (a + b)[j] == p;
        if j < a.len() {
            assert(a[j] == p);
        } else {
            assert(b[j - a.len()] == p);
        }
    }
}

/// `r` lists the pairs where the four arms disagree, over the union of
/// every pair any arm graded, ascending by pair name.
pub open spec fn separated(r: Seq<PairSeparation>, unassisted: PairedArm, decay: PairedArm, lie: PairedArm, sl: PairedArm) -> bool {
    exists|names: Seq<Seq<char>>|
        {
            &&& strictly_ascending(names)
            &&& forall|p: Seq<char>|
                #[trigger] names.contains(p) <==> (verdict_map(unassisted.paired.per_pair@).contains_key(p)
                    || verdict_map(decay.paired.per_pair@).contains_key(p) || verdict_map(
                    lie.paired.per_pair@,
                ).contains_key(p) || verdict_map(sl.paired.per_pair@).contains_key(p))
            &&& r.map_values(|x: PairSeparation| x@) == separations_over(
                names,
                verdict_map(unassisted.paired.per_pair@),
                verdict_map(decay.paired.per_pair@),
                verdict_map(lie.paired.per_pair@),
                verdict_map(sl.paired.per_pair@),
            )
        }
}

/// Pairs where the four arms disagree, over the union of every pair any arm
/// graded, ascending by pair name. A pair gradeable in one arm and not another
/// is reported too, with `None` for the arms that could not grade it.
pub fn separations(unassisted: &PairedArm, decay: &PairedArm, lie: &PairedArm, sl: &PairedArm) -> (r: Vec<
    PairSeparation,
>)
    ensures
        separated(r@, *unassisted, *decay, *lie, *sl),
{
    let u = verdicts(unassisted);
    let d = verdicts(decay);
    let l = verdicts(lie);
    let s = verdicts(sl);
    let mut all = u.keys();
    let mut kd = d.keys();
    let mut kl = l.keys();
    let mut ks = s.keys();
    let ghost (au, ad, al, as_) = (string_views(all@), string_views(kd@), string_views(kl@), string_views(ks@));
    all.append(&mut kd);
    all.append(&mut kl);
    all.append(&mut ks);
    proof {
        assert(string_views(all@) =~= au + ad + al + as_);
        assert forall|p: Seq<char>| string_views(all@).contains(p) <==> (u.map_view().contains_key(p)
            || d.map_view().contains_key(p) || l.map_view().contains_key(p) || s.map_view().contains_key(p)) by {
            lemma_contains_concat(au + ad + al, as_, p);
            lemma_contains_concat(au + ad, al, p);
            lemma_contains_concat(au, ad, p);
            assert(au.contains(p) <==> u.map_view().contains_key(p));
            assert(ad.contains(p) <==> d.map_view().contains_key(p));
            assert(al.contains(p) <==> l.map_view().contains_key(p));
            assert(as_.contains(p) <==> s.map_view().contains_key(p));
        }
    }
    let names = sorted_distinct(&all);
    let ghost nv = string_views(names@);
    let mut out: Vec<PairSeparation> = Vec::new();
    let mut i: usize = 0;
    while i < names.len()
        invariant
            i <= names@.len(),
            nv == string_views(names@),
            u.wf() && d.wf() && l.wf() && s.wf(),
            out@.map_values(|x: PairSeparation| x@) == separations_over(
                nv.take(i as int),
                u.map_view(),
                d.map_view(),
                l.map_view(),
                s.map_view(),
            ),
        decreases names@.len() - i,
    {
        let name = names[i].as_str();
        let uv = match u.get(name) { Some(b) => Some(*b), None => None };
        let dv = match d.get(name) { Some(b) => Some(*b), None => None };
        let lv = match l.get(name) { Some(b) => Some(*b), None => None };
        let sv = match s.get(name) { Some(b) => Some(*b), None => None };
        proof {
            lemma_take_step(nv, i as int);
            assert(nv[i as int] == name@);
        }
        if !(uv == dv && dv == lv && lv == sv) {
            let ghost before = out@;
            out.push(PairSeparation {
                pair: names[i].clone(),
                unassisted: uv,
                recency_decay: dv,
                lie: lv,
                subjective_logic: sv,
            });
            proof {
                assert(out@.map_values(|x: PairSeparation| x@) =~= before.map_values(|x: PairSeparation| x@).push(
                    out@[before.len() as int]@,
                ));
            }
        }
        i = i + 1;
    }
    proof {
        assert(nv.take(nv.len() as int) =~= nv);
    }
    out
}

/// A paired fixture: the trace every arm replays, the ground truth for its
/// decisions and for its claims' fates, and the stamp of the driver that
/// generated it (absent on a hand-authored fixture).
#[derive(Debug, Clone, PartialEq, Eq)]
pub struct PairedFixture {
    pub trace: ResearchTrace,
    pub labels: Vec<DecisionLabel>,
    pub claims: Vec<ClaimLabel>,
    pub provenance: Option<FixtureProvenance>,
}

/// The four arms graded against one fixture's ground truth, and the pairs
/// they split on.
#[derive(Debug, Clone, PartialEq, Eq)]
pub struct PairedComparison {
    /// The null baseline: no policy at all.
    pub unassisted: PairedArm,
    pub recency_decay: PairedArm,
    pub lie: PairedArm,
    pub subjective_logic: PairedArm,
    /// Pairs where the arms did not all reach the same verdict.
    pub separating_pairs: Vec<PairSeparation>,
}

impl PairedComparison {
    /// No pair separated the arms: every model graded identically, so the
    /// fixture measured nothing.
    pub fn is_undiscriminating(&self) -> (r: bool)
        ensures
            r == (self.separating_pairs@.len() == 0),
    {
        self.separating_pairs.len() == 0
    }
}

/// Grade the replays of one fixture's trace under the four arms (no policy,
/// recency decay, Lie, subjective logic) against the fixture's single label
/// set and claim fates, and name the pairs they split on. The provenance
/// stamp is not an input to any grade. Each arm is stamped with the model it
/// was replayed under; the subjective-logic arm is stamped
/// `SubjectiveLogic`, as the comparison's documentation and tests have it.
pub fn compare_arms(
    fixture: &PairedFixture,
    unassisted: &[ResearchEventOutcome],
    recency_decay: &[ResearchEventOutcome],
    lie: &[ResearchEventOutcome],
    subjective_logic: &[ResearchEventOutcome],
) -> (c: PairedComparison)
    requires
        waited_claims(unassisted@).len() <= usize::MAX,
        accepted_claims(unassisted@).len() <= usize::MAX,
        waited_claims(recency_decay@).len() <= usize::MAX,
        accepted_claims(recency_decay@).len() <= usize::MAX,
        waited_claims(lie@).len() <= usize::MAX,
        accepted_claims(lie@).len() <= usize::MAX,
        waited_claims(subjective_logic@).len() <= usize::MAX,
        accepted_claims(subjective_logic@).len() <= usize::MAX,
    ensures
        arm_graded(c.unassisted, "ix_unassisted"@, None, unassisted@, fixture.labels@, fixture.claims@),
        arm_graded(
            c.recency_decay,
            "recency_decay"@,
            Some(PriorityModel::RecencyDecay),
            recency_decay@,
            fixture.labels@,
            fixture.claims@,
        ),
        arm_graded(c.lie, "lie"@, Some(PriorityModel::Lie), lie@, fixture.labels@, fixture.claims@),
        arm_graded(
            c.subjective_logic,
            "subjective_logic"@,
            Some(PriorityModel::SubjectiveLogic),
            subjective_logic@,
            fixture.labels@,
            fixture.claims@,
        ),
        separated(c.separating_pairs@, c.unassisted, c.recency_decay, c.lie, c.subjective_logic),
{
    let labels = fixture.labels.as_slice();
    let claims = fixture.claims.as_slice();
    let u = grade_arm("ix_unassisted", None, unassisted, labels, claims);
    let d = grade_arm("recency_decay", Some(PriorityModel::RecencyDecay), recency_decay, labels, claims);
    let l = grade_arm("lie", Some(PriorityModel::Lie), lie, labels, claims);
    let s = grade_arm("subjective_logic", Some(PriorityModel::SubjectiveLogic), subjective_logic, labels, claims);
    let separating_pairs = separations(&u, &d, &l, &s);
    PairedComparison { unassisted: u, recency_decay: d, lie: l, subjective_logic: s, separating_pairs }
}

} // verus!
