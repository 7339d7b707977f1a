//! Where priority models disagree: the event indices at which two (or
//! three) replays of one trace recommended different kinds of action. Only
//! the sequence of action kinds counts; the data inside an action is not
//! compared, so a difference in log text is never a divergence.

use vstd::prelude::*;
use crate::research::{Action, ActionKind, ActionView, ResearchEventOutcome, action_kind, action_views, clone_actions,
    kind_of, kind_label, lemma_kind_label_injective};
use crate::text::owned;

verus! {

/// The kinds of a list of actions, in order.
pub open spec fn kinds(actions: Seq<Action>) -> Seq<ActionKind> {
    actions.map_values(|a: Action| kind_of(a))
}

/// Two action lists are equivalent when their sequences of kinds match.
pub fn action_lists_equivalent(a: &[Action], b: &[Action]) -> (r: bool)
    ensures
        r == (kinds(a@) == kinds(b@)),
{
    if a.len() != b.len() {
        proof {
            assert(kinds(a@).len() != kinds(b@).len());
        }
        return false;
    }
    let mut i: usize = 0;
    while i < a.len()
        invariant
            i <= a@.len() == b@.len(),
            forall|q: int| 0 <= q < i ==> kinds(a@)[q] == #[trigger] kinds(b@)[q],
        decreases a@.len() - i,
    {
        if action_kind(&a[i]) != action_kind(&b[i]) {
            proof {
                assert(kinds(a@)[i as int] != kinds(b@)[i as int]);
            }
            return false;
        }
        i = i + 1;
    }
    proof {
        assert(kinds(a@) =~= kinds(b@));
    }
    true
}

/// One event index where two priority models chose different actions.
#[derive(Debug, Clone, PartialEq, Eq)]
pub struct ActionDivergence {
    pub event_index: usize,
    pub baseline_actions: Vec<Action>,
    pub experimental_actions: Vec<Action>,
}

/// A pairwise divergence as plain values.
pub open spec fn divergence_view(d: ActionDivergence) -> (int, Seq<ActionView>, Seq<ActionView>) {
    (d.event_index as int, action_views(d.baseline_actions@), action_views(d.experimental_actions@))
}

/// The pairwise divergences over the first `n` events, in order.
pub open spec fn divergences_upto(
    b: Seq<ResearchEventOutcome>,
    e: Seq<ResearchEventOutcome>,
    n: nat,
) -> Seq<(int, Seq<ActionView>, Seq<ActionView>)>
    decreases n,
{
    if n == 0 {
        Seq::empty()
    } else {
        let i = n - 1;
        let before = divergences_upto(b, e, (n - 1) as nat);
        if kinds(b[i].actions@) != kinds(e[i].actions@) {
            before.push((i, action_views(b[i].actions@), action_views(e[i].actions@)))
        } else {
            before
        }
    }
}

/// Pair-wise divergence between two replays of one trace: every index (up
/// to the shorter of the two) whose action kinds differ, with both action
/// lists.
pub fn diff_outcomes(baseline: &[ResearchEventOutcome], experimental: &[ResearchEventOutcome]) -> (r: Vec<
    ActionDivergence,
>)
    ensures
        r@.map_values(|d: ActionDivergence| divergence_view(d)) == divergences_upto(
            baseline@,
            experimental@,
            if baseline@.len() <= experimental@.len() {
                baseline@.len()
            } else {
                experimental@.len()
            },
        ),
{
    let n = if baseline.len() <= experimental.len() {
        baseline.len()
    } else {
        experimental.len()
    };
    let mut out: Vec<ActionDivergence> = Vec::new();
    let mut i: usize = 0;
    while i < n
        invariant
            n <= baseline@.len(),
            n <= experimental@.len(),
            i <= n,
            out@.map_values(|d: ActionDivergence| divergence_view(d)) == divergences_upto(
                baseline@,
                experimental@,
                i as nat,
            ),
        decreases n - i,
    {
        let b = &baseline[i];
        let e = &experimental[i];
        if !action_lists_equivalent(b.actions.as_slice(), e.actions.as_slice()) {
            let ghost before = out@;
            let d = ActionDivergence {
                event_index: i,
                baseline_actions: clone_actions(&b.actions),
                experimental_actions: clone_actions(&e.actions),
            };
            out.push(d);
            proof {
                assert(out@.map_values(|d: ActionDivergence| divergence_view(d)) =~= before.map_values(
                    |d: ActionDivergence| divergence_view(d),
                ).push(divergence_view(d)));
            }
        }
        i = i + 1;
    }
    out
}

/// One event index where at least two of three models chose different
/// action-kind sequences, logs ignored.
#[derive(Debug, Clone, PartialEq, Eq)]
pub struct ThreeWayDivergence {
    pub event_index: usize,
    pub recency_decay: Vec<String>,
    pub lie: Vec<String>,
    pub subjective_logic: Vec<String>,
}

/// The kind names of the non-`Log` actions, in order.
pub open spec fn decision_labels(actions: Seq<Action>) -> Seq<Seq<char>>
    decreases actions.len(),
{
    if actions.len() == 0 {
        Seq::empty()
    } else {
        decision_labels(actions.drop_last()) + if actions.last() is Log {
            Seq::empty()
        } else {
            seq![kind_label(kind_of(actions.last()))]
        }
    }
}

/// A three-way divergence as plain values.
pub open spec fn three_way_view(d: ThreeWayDivergence) -> (int, Seq<Seq<char>>, Seq<Seq<char>>, Seq<Seq<char>>) {
    (
        d.event_index as int,
        d.recency_decay@.map_values(|s: String| s@),
        d.lie@.map_values(|s: String| s@),
        d.subjective_logic@.map_values(|s: String| s@),
    )
}

/// The three-way divergences over the first `n` events, in order.
pub open spec fn three_way_upto(
    d: Seq<ResearchEventOutcome>,
    l: Seq<ResearchEventOutcome>,
    s: Seq<ResearchEventOutcome>,
    n: nat,
) -> Seq<(int, Seq<Seq<char>>, Seq<Seq<char>>, Seq<Seq<char>>)>
    decreases n,
{
    if n == 0 {
        Seq::empty()
    } else {
        let i = n - 1;
        let before = three_way_upto(d, l, s, (n - 1) as nat);
        let (dk, lk, sk) = (
            decision_labels(d[i].actions@),
            decision_labels(l[i].actions@),
            decision_labels(s[i].actions@),
        );
        if dk != lk || dk != sk || lk != sk {
            before.push((i, dk, lk, sk))
        } else {
            before
        }
    }
}

fn decision_kinds(actions: &Vec<Action>) -> (r: (Vec<ActionKind>, Vec<String>))
    ensures
        r.1@.map_values(|s: String| s@) == decision_labels(actions@),
        r.0@.map_values(|k: ActionKind| kind_label(k)) == decision_labels(actions@),
{
    let mut ks: Vec<ActionKind> = Vec::new();
    let mut ls: Vec<String> = Vec::new();
    let mut i: usize = 0;
    while i < actions.len()
        invariant
            i <= actions@.len(),
            ls@.map_values(|s: String| s@) == decision_labels(actions@.take(i as int)),
            ks@.map_values(|k: ActionKind| kind_label(k)) == decision_labels(actions@.take(i as int)),
        decreases actions@.len() - i,
    {
        proof {
            assert(actions@.take(i + 1).drop_last() =~= actions@.take(i as int));
        }
        let a = &actions[i];
        if let Action::Log(_) = a {
            proof {
                assert(decision_labels(actions@.take(i + 1)) =~= decision_labels(actions@.take(i as int)));
            }
        } else {
            let k = action_kind(a);
            let ghost lb = ls@;
            let ghost kb = ks@;
            ks.push(k);
            ls.push(owned(k.label()));
            proof {
                assert(ls@.map_values(|s: String| s@) =~= lb.map_values(|s: String| s@).push(kind_label(k)));
                assert(ks@.map_values(|k: ActionKind| kind_label(k)) =~= kb.map_values(|k: ActionKind| kind_label(k)).push(
                    kind_label(k),
                ));
                assert(decision_labels(actions@.take(i + 1)) =~= decision_labels(actions@.take(i as int)).push(
                    kind_label(k),
                ));
            }
        }
        i = i + 1;
    }
    proof {
        assert(actions@.take(actions@.len() as int) =~= actions@);
    }
    (ks, ls)
}

fn same_kinds(a: &Vec<ActionKind>, b: &Vec<ActionKind>) -> (r: bool)
    ensures
        r == (a@.map_values(|k: ActionKind| kind_label(k)) == b@.map_values(|k: ActionKind| kind_label(k))),
{
    let ghost la = a@.map_values(|k: ActionKind| kind_label(k));
    let ghost lb = b@.map_values(|k: ActionKind| kind_label(k));
    if a.len() != b.len() {
        proof {
            assert(la.len() != lb.len());
        }
        return false;
    }
    let mut i: usize = 0;
    while i < a.len()
        invariant
            i <= a@.len() == b@.len(),
            la == a@.map_values(|k: ActionKind| kind_label(k)),
            lb == b@.map_values(|k: ActionKind| kind_label(k)),
            forall|q: int| 0 <= q < i ==> la[q] == #[trigger] lb[q],
        decreases a@.len() - i,
    {
        if a[i] != b[i] {
            proof {
                lemma_kind_label_injective(a@[i as int], b@[i as int]);
                assert(la[i as int] != lb[i as int]);
            }
            return false;
        }
        i = i + 1;
    }
    proof {
        assert(la =~= lb);
    }
    true
}

/// The event indices (up to the shortest replay) at which the three models'
/// non-`Log` action kinds are not all the same, with each model's kinds.
pub fn three_way_divergences(
    decay: &[ResearchEventOutcome],
    lie: &[ResearchEventOutcome],
    sl: &[ResearchEventOutcome],
) -> (r: Vec<ThreeWayDivergence>)
    ensures
        ({
            let n = if decay@.len() <= lie@.len() && decay@.len() <= sl@.len() {
                decay@.len()
            } else if lie@.len() <= sl@.len() {
                lie@.len()
            } else {
                sl@.len()
            };
            r@.map_values(|d: ThreeWayDivergence| three_way_view(d)) == three_way_upto(decay@, lie@, sl@, n)
        }),
{
    let n = if decay.len() <= lie.len() && decay.len() <= sl.len() {
        decay.len()
    } else if lie.len() <= sl.len() {
        lie.len()
    } else {
        sl.len()
    };
    let mut out: Vec<ThreeWayDivergence> = Vec::new();
    let mut i: usize = 0;
    while i < n
        invariant
            n <= decay@.len() && n <= lie@.len() && n <= sl@.len(),
            i <= n,
            out@.map_values(|d: ThreeWayDivergence| three_way_view(d)) == three_way_upto(decay@, lie@, sl@, i as nat),
        decreases n - i,
    {
        let (dk, dl) = decision_kinds(&decay[i].actions);
        let (lk, ll) = decision_kinds(&lie[i].actions);
        let (sk, sll) = decision_kinds(&sl[i].actions);
        let dl_eq = same_kinds(&dk, &lk);
        let ds_eq = same_kinds(&dk, &sk);
        let ls_eq = same_kinds(&lk, &sk);
        if !dl_eq || !ds_eq || !ls_eq {
            let ghost before = out@;
            let d = ThreeWayDivergence { event_index: i, recency_decay: dl, lie: ll, subjective_logic: sll };
            out.push(d);
            proof {
                assert(out@.map_values(|d: ThreeWayDivergence| three_way_view(d)) =~= before.map_values(
                    |d: ThreeWayDivergence| three_way_view(d),
                ).push(three_way_view(d)));
            }
        }
        i = i + 1;
    }
    out
}

} // verus!
