//! The trace-clustered paired bootstrap: joining two arms' per-pair verdicts
//! into resampling units, binding the arm labels to the data, and the exact
//! integer tallies every resample is computed from.
//!
//! Traces are resampled, never decisions: the decisions inside one trace
//! share a belief state, and treating them as independent would manufacture
//! significance.

use vstd::prelude::*;
use crate::keymap::{KeyMap, sorted_distinct, sort_strings, sorted_views};
use crate::paired_eval::{PairedArm, PairOutcome, verdict_map, verdicts};
use crate::text::{strictly_ascending, string_views, str_eq, owned, slash_join};

verus! {

/// One pair's contribution to the paired difference.
#[derive(Debug, Clone, PartialEq, Eq)]
pub struct PairedDelta {
    /// The pair identifier, shared by both arms — the join key.
    pub pair: String,
    /// The treatment arm got both halves of this pair right.
    pub treatment_correct: bool,
    /// The baseline arm got both halves right.
    pub baseline_correct: bool,
}

/// `+1`, `0` or `-1`: treatment right minus baseline right.
pub open spec fn delta_of(p: PairedDelta) -> int {
    (if p.treatment_correct { 1int } else { 0int }) - (if p.baseline_correct { 1int } else { 0int })
}

impl PairedDelta {
    /// `+1`, `0` or `-1` — the quantity the bootstrap aggregates.
    pub fn delta(&self) -> (d: i8)
        ensures
            d == delta_of(*self),
    {
        (if self.treatment_correct { 1i8 } else { 0i8 }) - (if self.baseline_correct { 1i8 } else { 0i8 })
    }
}

/// One trace's paired deltas — the resampling unit.
#[derive(Debug, Clone, PartialEq, Eq)]
pub struct TraceCluster {
    /// Identifier for the trace this cluster came from.
    pub trace: String,
    /// The arm whose `treatment_correct` column this cluster carries.
    pub treatment: String,
    /// The arm whose `baseline_correct` column this cluster carries.
    pub baseline: String,
    /// Every pair gradeable in both arms.
    pub pairs: Vec<PairedDelta>,
    /// Pairs gradeable in exactly one arm, ascending and distinct.
    pub unmatched: Vec<String>,
}

/// The treatment arm's verdicts that the baseline also graded, in the
/// treatment's order, joined with the baseline's verdict.
pub open spec fn matched_deltas(tp: Seq<PairOutcome>, base: Map<Seq<char>, bool>) -> Seq<(Seq<char>, bool, bool)>
    decreases tp.len(),
{
    if tp.len() == 0 {
        Seq::empty()
    } else {
        let before = matched_deltas(tp.drop_last(), base);
        let p = tp.last();
        if base.contains_key(p.pair@) {
            before.push((p.pair@, p.act_correct && p.abstain_correct, base[p.pair@]))
        } else {
            before
        }
    }
}

/// The pair names a per-pair list carries.
pub open spec fn graded_names(pp: Seq<PairOutcome>) -> Seq<Seq<char>> {
    pp.map_values(|o: PairOutcome| o.pair@)
}

/// A cluster's deltas as plain values.
pub open spec fn delta_views(ds: Seq<PairedDelta>) -> Seq<(Seq<char>, bool, bool)> {
    ds.map_values(|d: PairedDelta| (d.pair@, d.treatment_correct, d.baseline_correct))
}

/// Join two arms' per-pair verdicts into one resampling unit. The arm
/// identifiers are copied from the arms themselves, so the label that says
/// which arm won is derived from the data, never supplied by hand.
pub fn cluster_from_arms(trace: &str, treatment: &PairedArm, baseline: &PairedArm) -> (c: TraceCluster)
    ensures
        c.trace@ == trace@,
        c.treatment@ == treatment.arm@,
        c.baseline@ == baseline.arm@,
        delta_views(c.pairs@) == matched_deltas(treatment.paired.per_pair@, verdict_map(baseline.paired.per_pair@)),
        strictly_ascending(string_views(c.unmatched@)),
        forall|p: Seq<char>| #[trigger] string_views(c.unmatched@).contains(p) <==> (
            (graded_names(treatment.paired.per_pair@).contains(p) && !verdict_map(baseline.paired.per_pair@).contains_key(p))
            || (verdict_map(baseline.paired.per_pair@).contains_key(p) && !graded_names(treatment.paired.per_pair@).contains(p))),
{
    let base = verdicts(baseline);
    let ghost bm = verdict_map(baseline.paired.per_pair@);
    let tp = &treatment.paired.per_pair;
    let ghost tn = graded_names(tp@);
    let mut pairs: Vec<PairedDelta> = Vec::new();
    let mut raw: Vec<String> = Vec::new();
    let mut i: usize = 0;
    while i < tp.len()
        invariant
            i <= tp@.len(),
            base.wf(),
            base.map_view() == bm,
            tn == graded_names(tp@),
            delta_views(pairs@) == matched_deltas(tp@.take(i as int), bm),
            forall|p: Seq<char>| #[trigger] string_views(raw@).contains(p) <==> (tn.take(i as int).contains(p)
                && !bm.contains_key(p)),
        decreases tp@.len() - i,
    {
        let o = &tp[i];
        proof {
            assert(tp@.take(i + 1).drop_last() =~= tp@.take(i as int));
            assert(tn.take(i + 1) =~= tn.take(i as int).push(o.pair@));
        }
        let ghost raw_before = string_views(raw@);
        match base.get(o.pair.as_str()) {
            Some(b) => {
                let ghost before = pairs@;
                pairs.push(PairedDelta { pair: o.pair.clone(), treatment_correct: o.both_correct(), baseline_correct: *b });
                proof {
                    assert(delta_views(pairs@) =~= delta_views(before).push((o.pair@, o.act_correct && o.abstain_correct, bm[o.pair@])));
                }
            },
            None => {
                raw.push(o.pair.clone());
                proof {
                    assert(string_views(raw@) =~= raw_before.push(o.pair@));
                }
            },
        }
        proof {
            let a = tn.take(i as int);
            let b = tn.take(i + 1);
            assert forall|p: Seq<char>| #[trigger] string_views(raw@).contains(p) <==> (b.contains(p) && !bm.contains_key(p)) by {
                if b.contains(p) && p != o.pair@ {
                    let j = choose|j: int| 0 <= j < b.len() && #[trigger] b[j] == p;
                    assert(a[j] == p);
                }
                if a.contains(p) {
                    let j = choose|j: int| 0 <= j < a.len() && #[trigger] a[j] == p;
                    assert(b[j] == p);
                }
                if p == o.pair@ {
                    assert(b[i as int] == p);
                }
                if raw_before.contains(p) {
                    let j = choose|j: int| 0 <= j < raw_before.len() && #[trigger] raw_before[j] == p;
                    assert(raw_before.push(o.pair@)[j] == p);
                }
                if raw_before.push(o.pair@).contains(p) && p != o.pair@ {
                    let j = choose|j: int| 0 <= j < raw_before.push(o.pair@).len() && #[trigger] raw_before.push(o.pair@)[j] == p;
                    assert(raw_before[j] == p);
                }
                if !bm.contains_key(o.pair@) {
                    assert(raw_before.push(o.pair@)[raw_before.len() as int] == o.pair@);
                }
            }
        }
        i = i + 1;
    }
    proof {
        assert(tp@.take(tp@.len() as int) =~= tp@);
        assert(tn.take(tn.len() as int) =~= tn);
    }
    let graded = verdicts(treatment);
    let keys = base.keys();
    let ghost kv = string_views(keys@);
    let mut j: usize = 0;
    while j < keys.len()
        invariant
            j <= keys@.len(),
            kv == string_views(keys@),
            base.wf(),
            graded.wf(),
            forall|p: Seq<char>| kv.contains(p) <==> #[trigger] bm.contains_key(p),
            base.map_view() == bm,
            graded.map_view() == verdict_map(tp@),
            forall|p: Seq<char>| #[trigger] string_views(raw@).contains(p) <==> ((tn.contains(p)
                && !bm.contains_key(p)) || (kv.take(j as int).contains(p) && !verdict_map(tp@).contains_key(p))),
        decreases keys@.len() - j,
    {
        let k = &keys[j];
        let ghost raw_before = string_views(raw@);
        proof {
            assert(kv.take(j + 1) =~= kv.take(j as int).push(k@));
        }
        match graded.get(k.as_str()) {
            Some(_) => {},
            None => {
                raw.push(k.clone());
                proof {
                    assert(string_views(raw@) =~= raw_before.push(k@));
                }
            },
        }
        proof {
            let a = kv.take(j as int);
            let b = kv.take(j + 1);
            assert(kv.contains(k@)) by {
                assert(kv[j as int] == k@);
            }
            assert forall|p: Seq<char>| #[trigger] string_views(raw@).contains(p) <==> ((tn.contains(p)
                && !bm.contains_key(p)) || (b.contains(p) && !verdict_map(tp@).contains_key(p))) by {
                if b.contains(p) && p != k@ {
                    let q = choose|q: int| 0 <= q < b.len() && #[trigger] b[q] == p;
                    assert(a[q] == p);
                }
                if a.contains(p) {
                    let q = choose|q: int| 0 <= q < a.len() && #[trigger] a[q] == p;
                    assert(b[q] == p);
                }
                if p == k@ {
                    assert(b[j as int] == p);
                }
                if raw_before.contains(p) {
                    let q = choose|q: int| 0 <= q < raw_before.len() && #[trigger] raw_before[q] == p;
                    assert(raw_before.push(k@)[q] == p);
                }
                if raw_before.push(k@).contains(p) && p != k@ {
                    let q = choose|q: int| 0 <= q < raw_before.push(k@).len() && #[trigger] raw_before.push(k@)[q] == p;
                    assert(raw_before[q] == p);
                }
                if !verdict_map(tp@).contains_key(k@) {
                    assert(raw_before.push(k@)[raw_before.len() as int] == k@);
                }
            }
        }
        j = j + 1;
    }
    proof {
        assert(kv.take(kv.len() as int) =~= kv);
        lemma_verdict_map_names(tp@);
    }
    let unmatched = sorted_distinct(&raw);
    TraceCluster {
        trace: owned(trace),
        treatment: treatment.arm.clone(),
        baseline: baseline.arm.clone(),
        pairs,
        unmatched,
    }
}

/// The verdict map holds exactly the graded names.
pub proof fn lemma_verdict_map_names(pp: Seq<PairOutcome>)
    ensures
        forall|p: Seq<char>| #[trigger] verdict_map(pp).contains_key(p) <==> graded_names(pp).contains(p),
    decreases pp.len(),
{
    if pp.len() > 0 {
        lemma_verdict_map_names(pp.drop_last());
        let a = graded_names(pp.drop_last());
        let b = graded_names(pp);
        assert(b =~= a.push(pp.last().pair@));
        assert forall|p: Seq<char>| #[trigger] verdict_map(pp).contains_key(p) <==> b.contains(p) by {
            assert(verdict_map(pp.drop_last()).contains_key(p) <==> a.contains(p));
            if a.contains(p) {
                let j = choose|j: int| 0 <= j < a.len() && a[j] == p;
                assert(b[j] == p);
            }
            if b.contains(p) && p != pp.last().pair@ {
                let j = choose|j: int| 0 <= j < b.len() && b[j] == p;
                assert(a[j] == p);
            }
            if p == pp.last().pair@ {
                assert(b[a.len() as int] == p);
            }
        }
    }
}


/// Why a corpus of clusters cannot be aggregated into one interval: each
/// variant names a state in which the arm labels a published interval would
/// carry are not the arms its numbers came from.
#[derive(Debug, Clone, PartialEq, Eq)]
pub enum ArmBindingError {
    /// Two clusters were built from different arm pairs.
    Mismatch {
        trace: String,
        treatment: String,
        baseline: String,
        expected_treatment: String,
        expected_baseline: String,
    },
    /// A cluster carries an empty arm identifier.
    Unlabeled { trace: String },
    /// Both columns name the same arm.
    SameArm { trace: String, arm: String },
}

/// The cluster breaks the binding against the first cluster's arms.
pub open spec fn binding_broken(c: TraceCluster, first: TraceCluster) -> bool {
    c.treatment@.len() == 0 || c.baseline@.len() == 0 || c.treatment@ == c.baseline@
        || c.treatment@ != first.treatment@ || c.baseline@ != first.baseline@
}

/// The error reported for a cluster that breaks the binding, checked in
/// order: unlabeled, same arm, mismatch.
pub open spec fn binding_error(c: TraceCluster, first: TraceCluster, e: ArmBindingError) -> bool {
    if c.treatment@.len() == 0 || c.baseline@.len() == 0 {
        e matches ArmBindingError::Unlabeled { trace } && trace@ == c.trace@
    } else if c.treatment@ == c.baseline@ {
        e matches ArmBindingError::SameArm { trace, arm } && trace@ == c.trace@ && arm@ == c.treatment@
    } else {
        e matches ArmBindingError::Mismatch { trace, treatment, baseline, expected_treatment, expected_baseline }
            && trace@ == c.trace@ && treatment@ == c.treatment@ && baseline@ == c.baseline@
            && expected_treatment@ == first.treatment@ && expected_baseline@ == first.baseline@
    }
}

/// Derive the corpus's arm pair from its clusters, refusing anything that
/// would publish an interval under labels its numbers did not come from. The
/// first cluster that breaks the binding is reported.
pub fn bind_arms(usable: &[&TraceCluster]) -> (r: Result<(String, String), ArmBindingError>)
    requires
        usable@.len() > 0,
    ensures
        match r {
            Ok((t, b)) => t@ == usable@[0].treatment@ && b@ == usable@[0].baseline@ && forall|i: int|
                0 <= i < usable@.len() ==> !binding_broken(*#[trigger] usable@[i], *usable@[0]),
            Err(e) => exists|i: int|
                0 <= i < usable@.len() && binding_broken(*#[trigger] usable@[i], *usable@[0]) && (forall|k: int|
                    0 <= k < i ==> !binding_broken(*#[trigger] usable@[k], *usable@[0])) && binding_error(
                    *usable@[i],
                    *usable@[0],
                    e,
                ),
        },
{
    let first = usable[0];
    let mut i: usize = 0;
    while i < usable.len()
        invariant
            i <= usable@.len(),
            usable@.len() > 0,
            first == usable@[0],
            forall|k: int| 0 <= k < i ==> !binding_broken(*#[trigger] usable@[k], *usable@[0]),
        decreases usable@.len() - i,
    {
        let c = usable[i];
        if c.treatment.as_str().is_empty() || c.baseline.as_str().is_empty() {
            return Err(ArmBindingError::Unlabeled { trace: c.trace.clone() });
        }
        if str_eq(c.treatment.as_str(), c.baseline.as_str()) {
            return Err(ArmBindingError::SameArm { trace: c.trace.clone(), arm: c.treatment.clone() });
        }
        if !str_eq(c.treatment.as_str(), first.treatment.as_str()) || !str_eq(c.baseline.as_str(), first.baseline.as_str()) {
            return Err(
                ArmBindingError::Mismatch {
                    trace: c.trace.clone(),
                    treatment: c.treatment.clone(),
                    baseline: c.baseline.clone(),
                    expected_treatment: first.treatment.clone(),
                    expected_baseline: first.baseline.clone(),
                },
            );
        }
        i = i + 1;
    }
    Ok((first.treatment.clone(), first.baseline.clone()))
}

/// The Weyl increment of the SplitMix64 generator.
pub open spec fn gamma() -> u64 {
    0x9E37_79B9_7F4A_7C15u64
}

/// SplitMix64's output mixing of a state.
pub open spec fn mix(s: u64) -> u64 {
    let z1 = (s ^ (s >> 30u64)).wrapping_mul(0xBF58_476D_1CE4_E5B9u64);
    let z2 = (z1 ^ (z1 >> 27u64)).wrapping_mul(0x94D0_49BB_1331_11EBu64);
    z2 ^ (z2 >> 31u64)
}

/// Deterministic PRNG (SplitMix64), kept in the library so a fixed seed
/// reproduces the interval exactly across dependency upgrades.
pub struct SplitMix64(pub u64);

impl SplitMix64 {
    /// Advance the state by the Weyl increment and return its mixing.
    pub fn next_u64(&mut self) -> (r: u64)
        ensures
            final(self).0 == old(self).0.wrapping_add(gamma()),
            r == mix(final(self).0),
    {
        self.0 = self.0.wrapping_add(0x9E37_79B9_7F4A_7C15);
        let mut z = self.0;
        z = (z ^ (z >> 30)).wrapping_mul(0xBF58_476D_1CE4_E5B9);
        z = (z ^ (z >> 27)).wrapping_mul(0x94D0_49BB_1331_11EB);
        z ^ (z >> 31)
    }

    /// An index into `0..n`: the next output reduced modulo `n`.
    pub fn index(&mut self, n: usize) -> (r: usize)
        requires
            n > 0,
        ensures
            final(self).0 == old(self).0.wrapping_add(gamma()),
            r < n,
            r as int == mix(final(self).0) as int % n as int,
    {
        let x = self.next_u64();
        let m = n as u64;
        (x % m) as usize
    }
}

/// The sum of a cluster's deltas.
pub open spec fn delta_sum(ds: Seq<PairedDelta>) -> int
    decreases ds.len(),
{
    if ds.len() == 0 {
        0
    } else {
        delta_sum(ds.drop_last()) + delta_of(ds.last())
    }
}

proof fn lemma_delta_sum_bound(ds: Seq<PairedDelta>)
    ensures
        -ds.len() <= delta_sum(ds) <= ds.len(),
    decreases ds.len(),
{
    if ds.len() > 0 {
        lemma_delta_sum_bound(ds.drop_last());
    }
}

fn cluster_sum(ds: &Vec<PairedDelta>) -> (s: i64)
    requires
        ds@.len() <= i64::MAX,
    ensures
        s == delta_sum(ds@),
{
    let mut s: i64 = 0;
    let mut i: usize = 0;
    while i < ds.len()
        invariant
            i <= ds@.len() <= i64::MAX,
            s == delta_sum(ds@.take(i as int)),
        decreases ds@.len() - i,
    {
        proof {
            assert(ds@.take(i + 1).drop_last() =~= ds@.take(i as int));
            lemma_delta_sum_bound(ds@.take(i as int));
        }
        s = s + ds[i].delta() as i64;
        i = i + 1;
    }
    proof {
        assert(ds@.take(ds@.len() as int) =~= ds@);
    }
    s
}

/// No between-cluster variance: every cluster's mean delta equals the first
/// cluster's, compared exactly by cross-multiplication.
pub fn every_cluster_has_the_same_mean(usable: &[&TraceCluster]) -> (r: bool)
    requires
        usable@.len() > 0,
        forall|i: int| 0 <= i < usable@.len() ==> (#[trigger] usable@[i]).pairs@.len() <= i64::MAX,
    ensures
        r == forall|i: int|
            0 <= i < usable@.len() ==> delta_sum((#[trigger] usable@[i]).pairs@) * usable@[0].pairs@.len()
                == delta_sum(usable@[0].pairs@) * usable@[i].pairs@.len(),
{
    let s0 = cluster_sum(&usable[0].pairs) as i128;
    let n0 = usable[0].pairs.len() as i128;
    proof {
        lemma_delta_sum_bound(usable@[0].pairs@);
    }
    let mut i: usize = 0;
    while i < usable.len()
        invariant
            i <= usable@.len(),
            usable@.len() > 0,
            forall|k: int| 0 <= k < usable@.len() ==> (#[trigger] usable@[k]).pairs@.len() <= i64::MAX,
            s0 == delta_sum(usable@[0].pairs@),
            n0 == usable@[0].pairs@.len(),
            -n0 <= s0 <= n0,
            forall|k: int|
                0 <= k < i ==> delta_sum((#[trigger] usable@[k]).pairs@) * usable@[0].pairs@.len()
                    == delta_sum(usable@[0].pairs@) * usable@[k].pairs@.len(),
        decreases usable@.len() - i,
    {
        proof {
            lemma_delta_sum_bound(usable@[0].pairs@);
        }
        let s = cluster_sum(&usable[i].pairs) as i128;
        let n = usable[i].pairs.len() as i128;
        proof {
            lemma_delta_sum_bound(usable@[i as int].pairs@);
            assert(-0x7fff_ffff_ffff_ffffi128 <= s <= 0x7fff_ffff_ffff_ffffi128);
            assert(0 <= n0 <= 0x7fff_ffff_ffff_ffffi128);
            assert(-0x3fff_ffff_ffff_ffff_0000_0000_0000_0001i128 <= s * n0 <= 0x3fff_ffff_ffff_ffff_0000_0000_0000_0001i128) by (nonlinear_arith)
                requires
                    -0x7fff_ffff_ffff_ffffi128 <= s <= 0x7fff_ffff_ffff_ffffi128,
                    0 <= n0 <= 0x7fff_ffff_ffff_ffffi128,
            ;
            assert(-0x3fff_ffff_ffff_ffff_0000_0000_0000_0001i128 <= s0 * n <= 0x3fff_ffff_ffff_ffff_0000_0000_0000_0001i128) by (nonlinear_arith)
                requires
                    -0x7fff_ffff_ffff_ffffi128 <= s0 <= 0x7fff_ffff_ffff_ffffi128,
                    0 <= n <= 0x7fff_ffff_ffff_ffffi128,
            ;
        }
        if s * n0 != s0 * n {
            return false;
        }
        i = i + 1;
    }
    true
}


/// The clusters a list of references points at.
pub open spec fn derefs(usable: Seq<&TraceCluster>) -> Seq<TraceCluster> {
    usable.map_values(|c: &TraceCluster| *c)
}

/// Each cluster's delta sum.
pub open spec fn cluster_sums(u: Seq<TraceCluster>) -> Seq<int> {
    u.map_values(|c: TraceCluster| delta_sum(c.pairs@))
}

/// Each cluster's pair count.
pub open spec fn cluster_lens(u: Seq<TraceCluster>) -> Seq<int> {
    u.map_values(|c: TraceCluster| c.pairs@.len() as int)
}

/// One resample's first `j` draws from generator state `st`: each draw
/// advances the generator and picks a cluster uniformly by index, adding its
/// delta sum and its pair count. Returns the sum, the count and the state.
pub open spec fn resample_from(sums: Seq<int>, lens: Seq<int>, st: u64, j: nat) -> (int, int, u64)
    decreases j,
{
    if j == 0 {
        (0, 0, st)
    } else {
        let (s, n, st1) = resample_from(sums, lens, st, (j - 1) as nat);
        let st2 = st1.wrapping_add(gamma());
        let c = mix(st2) as int % sums.len() as int;
        (s + sums[c], n + lens[c], st2)
    }
}

/// `count` resamples in sequence from state `st`, each drawing as many
/// clusters as there are: the `(sum, count)` tallies and the final state.
pub open spec fn resamples_from(sums: Seq<int>, lens: Seq<int>, st: u64, count: nat) -> (Seq<(int, int)>, u64)
    decreases count,
{
    if count == 0 {
        (Seq::empty(), st)
    } else {
        let (prev, st1) = resamples_from(sums, lens, st, (count - 1) as nat);
        let (s, n, st2) = resample_from(sums, lens, st1, sums.len() as nat);
        (prev.push((s, n)), st2)
    }
}

/// The resample tallies of the trace-clustered bootstrap: for each of
/// `resamples` resamples, draw as many clusters as there are, with
/// replacement, from SplitMix64 seeded with `seed`, and record the drawn
/// clusters' total delta and total pair count. A resample's statistic is the
/// ratio of the two.
pub fn resample_tallies(usable: &[&TraceCluster], resamples: usize, seed: u64) -> (r: Vec<(i64, u64)>)
    requires
        usable@.len() > 0,
        forall|i: int| 0 <= i < usable@.len() ==> (#[trigger] usable@[i]).pairs@.len() * usable@.len() <= i64::MAX,
    ensures
        r@.map_values(|t: (i64, u64)| (t.0 as int, t.1 as int)) == resamples_from(
            cluster_sums(derefs(usable@)),
            cluster_lens(derefs(usable@)),
            seed,
            resamples as nat,
        ).0,
{
    let k = usable.len();
    let ghost sums = cluster_sums(derefs(usable@));
    let ghost lens = cluster_lens(derefs(usable@));
    let ghost bound: int = i64::MAX as int / k as int;
    let mut cs: Vec<i64> = Vec::new();
    let mut i: usize = 0;
    while i < k
        invariant
            k == usable@.len() > 0,
            i <= k,
            sums == cluster_sums(derefs(usable@)),
            forall|q: int| 0 <= q < usable@.len() ==> (#[trigger] usable@[q]).pairs@.len() * usable@.len() <= i64::MAX,
            cs@.len() == i,
            forall|q: int| 0 <= q < i ==> cs@[q] as int == #[trigger] sums[q],
        decreases k - i,
    {
        proof {
            let len = usable@[i as int].pairs@.len();
            assert(len <= len * k) by (nonlinear_arith)
                requires
                    k >= 1,
            ;
        }
        let s = cluster_sum(&usable[i].pairs);
        cs.push(s);
        i = i + 1;
    }
    let mut rng = SplitMix64(seed);
    let mut out: Vec<(i64, u64)> = Vec::new();
    let mut r: usize = 0;
    while r < resamples
        invariant
            k == usable@.len() > 0,
            sums == cluster_sums(derefs(usable@)),
            lens == cluster_lens(derefs(usable@)),
            bound == i64::MAX as int / k as int,
            forall|q: int| 0 <= q < usable@.len() ==> (#[trigger] usable@[q]).pairs@.len() * usable@.len() <= i64::MAX,
            cs@.len() == k,
            forall|q: int| 0 <= q < k ==> cs@[q] as int == #[trigger] sums[q],
            r <= resamples,
            (out@.map_values(|t: (i64, u64)| (t.0 as int, t.1 as int)), rng.0) == resamples_from(
                sums,
                lens,
                seed,
                r as nat,
            ),
        decreases resamples - r,
    {
        let ghost st0 = rng.0;
        let mut sum: i64 = 0;
        let mut n: u64 = 0;
        let mut j: usize = 0;
        while j < k
            invariant
                k == usable@.len() > 0,
                sums == cluster_sums(derefs(usable@)),
                lens == cluster_lens(derefs(usable@)),
                bound == i64::MAX as int / k as int,
                forall|q: int| 0 <= q < usable@.len() ==> (#[trigger] usable@[q]).pairs@.len() * usable@.len() <= i64::MAX,
                cs@.len() == k,
                forall|q: int| 0 <= q < k ==> cs@[q] as int == #[trigger] sums[q],
                j <= k,
                (sum as int, n as int, rng.0) == resample_from(sums, lens, st0, j as nat),
                0 <= n <= j * bound,
                -(n as int) <= sum <= n,
            decreases k - j,
        {
            let c = rng.index(k);
            let len = usable[c].pairs.len() as u64;
            proof {
                lemma_delta_sum_bound(usable@[c as int].pairs@);
                assert(sums[c as int] == delta_sum(usable@[c as int].pairs@));
                assert(lens[c as int] == len);
                assert(len <= bound) by (nonlinear_arith)
                    requires
                        len * k <= i64::MAX,
                        bound == i64::MAX as int / k as int,
                        k >= 1,
                ;
                assert(n + len <= (j + 1) * bound) by (nonlinear_arith)
                    requires
                        n <= j * bound,
                        len <= bound,
                ;
                assert((j + 1) * bound <= k * bound) by (nonlinear_arith)
                    requires
                        j + 1 <= k,
                        bound >= 0,
                ;
                assert(k * bound <= i64::MAX) by (nonlinear_arith)
                    requires
                        bound == i64::MAX as int / k as int,
                        k >= 1,
                ;
            }
            sum = sum + cs[c];
            n = n + len;
            j = j + 1;
        }
        let ghost before = out@;
        out.push((sum, n));
        proof {
            assert(out@.map_values(|t: (i64, u64)| (t.0 as int, t.1 as int)) =~= before.map_values(
                |t: (i64, u64)| (t.0 as int, t.1 as int),
            ).push((sum as int, n as int)));
        }
        r = r + 1;
    }
    out
}


/// The clusters that carry at least one pair, in order.
pub open spec fn usable_of(cs: Seq<TraceCluster>) -> Seq<TraceCluster>
    decreases cs.len(),
{
    if cs.len() == 0 {
        Seq::empty()
    } else {
        usable_of(cs.drop_last()) + if cs.last().pairs@.len() > 0 {
            seq![cs.last()]
        } else {
            Seq::empty()
        }
    }
}

/// The number of pairs across the clusters.
pub open spec fn total_pairs(cs: Seq<TraceCluster>) -> int
    decreases cs.len(),
{
    if cs.len() == 0 {
        0
    } else {
        total_pairs(cs.drop_last()) + cs.last().pairs@.len()
    }
}

/// The sum of every delta across the clusters.
pub open spec fn total_delta(cs: Seq<TraceCluster>) -> int
    decreases cs.len(),
{
    if cs.len() == 0 {
        0
    } else {
        total_delta(cs.drop_last()) + delta_sum(cs.last().pairs@)
    }
}

/// How many pairs the treatment arm (or, with `treatment` false, the
/// baseline arm) got right.
pub open spec fn hit_count(ds: Seq<PairedDelta>, treatment: bool) -> int
    decreases ds.len(),
{
    if ds.len() == 0 {
        0
    } else {
        hit_count(ds.drop_last(), treatment) + if (if treatment {
            ds.last().treatment_correct
        } else {
            ds.last().baseline_correct
        }) {
            1int
        } else {
            0int
        }
    }
}

/// Hits across the clusters.
pub open spec fn total_hits(cs: Seq<TraceCluster>, treatment: bool) -> int
    decreases cs.len(),
{
    if cs.len() == 0 {
        0
    } else {
        total_hits(cs.drop_last(), treatment) + hit_count(cs.last().pairs@, treatment)
    }
}

/// A cluster's delta sequence, its signature.
pub open spec fn deltas(c: TraceCluster) -> Seq<int> {
    c.pairs@.map_values(|p: PairedDelta| delta_of(p))
}

/// Cluster `i` has a signature no earlier cluster has.
pub open spec fn new_signature(u: Seq<TraceCluster>, i: int) -> bool {
    forall|k: int| 0 <= k < i ==> deltas(#[trigger] u[k]) != deltas(u[i])
}

/// How many distinct signatures the first `n` clusters carry.
pub open spec fn distinct_upto(u: Seq<TraceCluster>, n: nat) -> nat
    decreases n,
{
    if n == 0 {
        0
    } else {
        distinct_upto(u, (n - 1) as nat) + if new_signature(u, n - 1) {
            1nat
        } else {
            0nat
        }
    }
}

/// Every cluster's mean delta equals the first's.
pub open spec fn same_means(u: Seq<TraceCluster>) -> bool {
    forall|i: int|
        0 <= i < u.len() ==> delta_sum((#[trigger] u[i]).pairs@) * u[0].pairs@.len() == delta_sum(u[0].pairs@)
            * u[i].pairs@.len()
}

/// Every single decision agreed.
pub open spec fn all_deltas_zero(u: Seq<TraceCluster>) -> bool {
    forall|i: int, j: int| 0 <= i < u.len() && 0 <= j < u[i].pairs@.len() ==> delta_of(#[trigger] u[i].pairs@[j]) == 0
}

/// `trace/pair` for every unmatched pair of every cluster, in cluster order.
pub open spec fn unmatched_labels(cs: Seq<TraceCluster>) -> Seq<Seq<char>>
    decreases cs.len(),
{
    if cs.len() == 0 {
        Seq::empty()
    } else {
        unmatched_labels(cs.drop_last()) + string_views(cs.last().unmatched@).map_values(
            |p: Seq<char>| cs.last().trace@ + seq!['/'] + p,
        )
    }
}

/// The exact integer tallies of the trace-clustered paired bootstrap: the
/// bound arm pair, the point estimate's numerator and denominator, each arm's
/// hits, each resample's `(delta sum, pair count)`, and the corpus's
/// degeneracy diagnostics. Every ratio the interval reads is a ratio of these.
#[derive(Debug, Clone, PartialEq, Eq)]
pub struct BootstrapTally {
    /// The arm whose improvement is being tested.
    pub treatment: String,
    /// The arm it is tested against.
    pub baseline: String,
    /// Resampling units: clusters with at least one pair.
    pub clusters: usize,
    /// Pairs gradeable in both arms.
    pub pairs: usize,
    /// Sum of every delta; the point estimate is `delta_sum / pairs`.
    pub delta_sum: i64,
    /// Pairs the treatment arm got right.
    pub treatment_hits: usize,
    /// Pairs the baseline arm got right.
    pub baseline_hits: usize,
    /// Each resample's `(delta sum, pair count)`.
    pub resamples: Vec<(i64, u64)>,
    /// How many distinct delta sequences the clusters hold.
    pub distinct_cluster_signatures: usize,
    /// No between-cluster variance: every cluster has the same mean delta.
    pub zero_between_cluster_variance: bool,
    /// Every single decision agreed.
    pub every_delta_is_zero: bool,
    /// `trace/pair` for every pair gradeable in exactly one arm, ascending.
    pub unmatched: Vec<String>,
}

proof fn lemma_usable_step(cs: Seq<TraceCluster>, i: int)
    requires
        0 <= i < cs.len(),
    ensures
        usable_of(cs.take(i + 1)) == usable_of(cs.take(i)) + if cs[i].pairs@.len() > 0 {
            seq![cs[i]]
        } else {
            Seq::<TraceCluster>::empty()
        },
        total_pairs(cs.take(i + 1)) == total_pairs(cs.take(i)) + cs[i].pairs@.len(),
        total_delta(cs.take(i + 1)) == total_delta(cs.take(i)) + delta_sum(cs[i].pairs@),
        total_hits(cs.take(i + 1), true) == total_hits(cs.take(i), true) + hit_count(cs[i].pairs@, true),
        total_hits(cs.take(i + 1), false) == total_hits(cs.take(i), false) + hit_count(cs[i].pairs@, false),
        unmatched_labels(cs.take(i + 1)) == unmatched_labels(cs.take(i)) + string_views(cs[i].unmatched@).map_values(
            |p: Seq<char>| cs[i].trace@ + seq!['/'] + p,
        ),
{
    assert(cs.take(i + 1).drop_last() =~= cs.take(i));
}

proof fn lemma_total_pairs_mono(cs: Seq<TraceCluster>, i: int, j: int)
    requires
        0 <= i <= j <= cs.len(),
    ensures
        0 <= total_pairs(cs.take(i)) <= total_pairs(cs.take(j)),
    decreases j - i,
{
    if i < j {
        lemma_total_pairs_mono(cs, i, j - 1);
        lemma_usable_step(cs, j - 1);
    } else {
        lemma_total_pairs_nonneg(cs.take(i));
    }
}

proof fn lemma_total_pairs_nonneg(cs: Seq<TraceCluster>)
    ensures
        total_pairs(cs) >= 0,
    decreases cs.len(),
{
    if cs.len() > 0 {
        lemma_total_pairs_nonneg(cs.drop_last());
    }
}

/// Usable clusters: their count, their pair totals and each one's size, as
/// measured against all the clusters.
proof fn lemma_usable_facts(cs: Seq<TraceCluster>)
    ensures
        usable_of(cs).len() <= cs.len(),
        total_pairs(usable_of(cs)) == total_pairs(cs),
        total_delta(usable_of(cs)) == total_delta(cs),
        total_hits(usable_of(cs), true) == total_hits(cs, true),
        total_hits(usable_of(cs), false) == total_hits(cs, false),
        forall|q: int| 0 <= q < usable_of(cs).len() ==> (#[trigger] usable_of(cs)[q]).pairs@.len() > 0
            && usable_of(cs)[q].pairs@.len() <= total_pairs(cs),
        total_pairs(cs) >= 0,
        usable_of(cs).len() == 0 <==> total_pairs(cs) == 0,
    decreases cs.len(),
{
    if cs.len() > 0 {
        let t = cs.drop_last();
        let c = cs.last();
        lemma_usable_facts(t);
        let ut = usable_of(t);
        if c.pairs@.len() > 0 {
            let u = ut + seq![c];
            assert(u.drop_last() =~= ut);
            assert(u.last() == c);
            assert forall|q: int| 0 <= q < u.len() implies (#[trigger] u[q]).pairs@.len() > 0 && u[q].pairs@.len()
                <= total_pairs(cs) by {
                if q < ut.len() {
                    assert(u[q] == ut[q]);
                }
            }
        } else {
            assert(ut + Seq::<TraceCluster>::empty() =~= ut);
            if c.pairs@.len() == 0 {
                assert(delta_sum(c.pairs@) == 0);
                assert(hit_count(c.pairs@, true) == 0);
                assert(hit_count(c.pairs@, false) == 0);
            }
        }
    }
}

fn same_deltas(a: &TraceCluster, b: &TraceCluster) -> (r: bool)
    ensures
        r == (deltas(*a) == deltas(*b)),
{
    if a.pairs.len() != b.pairs.len() {
        proof {
            assert(deltas(*a).len() != deltas(*b).len());
        }
        return false;
    }
    let mut i: usize = 0;
    while i < a.pairs.len()
        invariant
            i <= a.pairs@.len() == b.pairs@.len(),
            forall|q: int| 0 <= q < i ==> deltas(*a)[q] == #[trigger] deltas(*b)[q],
        decreases a.pairs@.len() - i,
    {
        if a.pairs[i].delta() != b.pairs[i].delta() {
            proof {
                assert(deltas(*a)[i as int] != deltas(*b)[i as int]);
            }
            return false;
        }
        i = i + 1;
    }
    proof {
        assert(deltas(*a) =~= deltas(*b));
    }
    true
}

fn hits(ds: &Vec<PairedDelta>, treatment: bool) -> (n: usize)
    ensures
        n == hit_count(ds@, treatment),
        n <= ds@.len(),
{
    let mut n: usize = 0;
    let mut i: usize = 0;
    while i < ds.len()
        invariant
            i <= ds@.len(),
            n == hit_count(ds@.take(i as int), treatment),
            n <= i,
        decreases ds@.len() - i,
    {
        proof {
            assert(ds@.take(i + 1).drop_last() =~= ds@.take(i as int));
        }
        let hit = if treatment { ds[i].treatment_correct } else { ds[i].baseline_correct };
        if hit {
            n = n + 1;
        }
        i = i + 1;
    }
    proof {
        assert(ds@.take(ds@.len() as int) =~= ds@);
    }
    n
}


/// The bootstrap's exact tallies over a corpus of clusters.
///
/// Only clusters with at least one pair are resampling units. With none,
/// there is no interval (`Ok(None)`), which is not an interval at zero. The
/// arm pair is derived from the clusters and a corpus whose clusters
/// disagree about it is refused. Otherwise the tallies are those of the
/// usable clusters, the resamples are drawn from SplitMix64 seeded with
/// `seed`, and the unmatched pairs of every cluster are listed as
/// `trace/pair`, ascending.
pub fn tally_paired_difference(clusters: &[TraceCluster], resamples: usize, seed: u64) -> (r: Result<
    Option<BootstrapTally>,
    ArmBindingError,
>)
    requires
        total_pairs(clusters@) * clusters@.len() <= i64::MAX,
        total_pairs(clusters@) <= usize::MAX,
    ensures
        ({
            let u = usable_of(clusters@);
            &&& u.len() == 0 ==> r == Ok::<Option<BootstrapTally>, ArmBindingError>(None)
            &&& u.len() > 0 ==> match r {
                Err(e) => exists|i: int|
                    0 <= i < u.len() && binding_broken(#[trigger] u[i], u[0]) && (forall|k: int|
                        0 <= k < i ==> !binding_broken(#[trigger] u[k], u[0])) && binding_error(u[i], u[0], e),
                Ok(None) => false,
                Ok(Some(t)) => {
                    &&& forall|i: int| 0 <= i < u.len() ==> !binding_broken(#[trigger] u[i], u[0])
                    &&& t.treatment@ == u[0].treatment@
                    &&& t.baseline@ == u[0].baseline@
                    &&& t.clusters == u.len()
                    &&& t.pairs == total_pairs(clusters@)
                    &&& t.delta_sum == total_delta(clusters@)
                    &&& t.treatment_hits == total_hits(clusters@, true)
                    &&& t.baseline_hits == total_hits(clusters@, false)
                    &&& t.resamples@.map_values(|x: (i64, u64)| (x.0 as int, x.1 as int)) == resamples_from(
                        cluster_sums(u),
                        cluster_lens(u),
                        seed,
                        resamples as nat,
                    ).0
                    &&& t.distinct_cluster_signatures == distinct_upto(u, u.len())
                    &&& t.zero_between_cluster_variance == same_means(u)
                    &&& t.every_delta_is_zero == all_deltas_zero(u)
                    &&& sorted_views(string_views(t.unmatched@))
                    &&& string_views(t.unmatched@).to_multiset() == unmatched_labels(clusters@).to_multiset()
                },
            }
        }),
{
    let ghost cs = clusters@;
    proof {
        lemma_usable_facts(cs);
        lemma_total_pairs_nonneg(cs);
    }
    let mut usable: Vec<&TraceCluster> = Vec::new();
    let mut total: usize = 0;
    let mut sum: i64 = 0;
    let mut t_hits: usize = 0;
    let mut b_hits: usize = 0;
    let mut labels: Vec<String> = Vec::new();
    let mut i: usize = 0;
    while i < clusters.len()
        invariant
            cs == clusters@,
            i <= cs.len(),
            total_pairs(cs) * cs.len() <= i64::MAX,
            total_pairs(cs) <= usize::MAX,
            derefs(usable@) == usable_of(cs.take(i as int)),
            total == total_pairs(cs.take(i as int)),
            sum == total_delta(cs.take(i as int)),
            t_hits == total_hits(cs.take(i as int), true),
            b_hits == total_hits(cs.take(i as int), false),
            string_views(labels@) == unmatched_labels(cs.take(i as int)),
        decreases cs.len() - i,
    {
        let c = &clusters[i];
        proof {
            lemma_usable_step(cs, i as int);
            lemma_total_pairs_mono(cs, i + 1, cs.len() as int);
            assert(cs.take(cs.len() as int) =~= cs);
            lemma_total_pairs_nonneg(cs.take(i as int));
            lemma_delta_sum_bound(c.pairs@);
            lemma_hit_bound(c.pairs@, true);
            lemma_hit_bound(c.pairs@, false);
            lemma_total_bounds(cs.take(i as int));
            assert(total_pairs(cs) <= i64::MAX) by (nonlinear_arith)
                requires
                    total_pairs(cs) * cs.len() <= i64::MAX,
                    cs.len() >= 1,
                    total_pairs(cs) >= 0,
            ;
        }
        if c.pairs.len() > 0 {
            let ghost before = usable@;
            usable.push(c);
            proof {
                assert(derefs(usable@) =~= derefs(before) + seq![*c]);
            }
        } else {
            proof {
                assert(usable_of(cs.take(i as int)) + Seq::<TraceCluster>::empty() =~= usable_of(cs.take(i as int)));
            }
        }
        total = total + c.pairs.len();
        sum = sum + cluster_sum(&c.pairs);
        t_hits = t_hits + hits(&c.pairs, true);
        b_hits = b_hits + hits(&c.pairs, false);
        let mut q: usize = 0;
        let ghost lb = string_views(labels@);
        let ghost uv = string_views(c.unmatched@);
        while q < c.unmatched.len()
            invariant
                q <= uv.len(),
                uv == string_views(c.unmatched@),
                string_views(labels@) == lb + uv.take(q as int).map_values(|p: Seq<char>| c.trace@ + seq!['/'] + p),
            decreases uv.len() - q,
        {
            let l = slash_join(c.trace.as_str(), c.unmatched[q].as_str());
            let ghost prev = labels@;
            labels.push(l);
            proof {
                assert(uv.take(q + 1).map_values(|p: Seq<char>| c.trace@ + seq!['/'] + p) =~= uv.take(q as int).map_values(
                    |p: Seq<char>| c.trace@ + seq!['/'] + p,
                ).push(c.trace@ + seq!['/'] + uv[q as int]));
                assert(string_views(labels@) =~= string_views(prev).push(l@));
            }
            q = q + 1;
        }
        proof {
            assert(uv.take(uv.len() as int) =~= uv);
        }
        i = i + 1;
    }
    proof {
        assert(cs.take(cs.len() as int) =~= cs);
    }
    let ghost u = usable_of(cs);
    if usable.len() == 0 {
        return Ok(None);
    }
    let (treatment, baseline) = match bind_arms(usable.as_slice()) {
        Ok(pair) => pair,
        Err(e) => {
            proof {
                assert(derefs(usable@) == u);
                let i = choose|i: int|
                    0 <= i < usable@.len() && binding_broken(*#[trigger] usable@[i], *usable@[0]) && (forall|k: int|
                        0 <= k < i ==> !binding_broken(*#[trigger] usable@[k], *usable@[0])) && binding_error(
                        *usable@[i],
                        *usable@[0],
                        e,
                    );
                assert(u[i] == *usable@[i] && u[0] == *usable@[0]);
                assert forall|k: int| 0 <= k < i implies !binding_broken(#[trigger] u[k], u[0]) by {
                    assert(u[k] == *usable@[k]);
                }
            }
            return Err(e);
        },
    };
    proof {
        assert(derefs(usable@) == u);
        assert forall|k: int| 0 <= k < u.len() implies !binding_broken(#[trigger] u[k], u[0]) by {
            assert(u[k] == *usable@[k]);
            assert(!binding_broken(*usable@[k], *usable@[0]));
        }
        assert forall|q: int| 0 <= q < usable@.len() implies (#[trigger] usable@[q]).pairs@.len() * usable@.len() <= i64::MAX by {
            assert(u[q] == *usable@[q]);
            let len = usable@[q].pairs@.len();
            let k = usable@.len();
            let n = cs.len();
            let tp = total_pairs(cs);
            assert(len * k <= tp * n) by (nonlinear_arith)
                requires
                    0 <= len <= tp,
                    0 <= k <= n,
            ;
        }
        assert forall|q: int| 0 <= q < usable@.len() implies (#[trigger] usable@[q]).pairs@.len() <= i64::MAX by {
            assert(u[q] == *usable@[q]);
            assert(total_pairs(cs) <= i64::MAX) by (nonlinear_arith)
                requires
                    total_pairs(cs) * cs.len() <= i64::MAX,
                    cs.len() >= 1,
                    total_pairs(cs) >= 0,
            ;
        }
    }
    let tallies = resample_tallies(usable.as_slice(), resamples, seed);
    let degenerate = every_cluster_has_the_same_mean(usable.as_slice());
    let k = usable.len();
    let mut distinct: usize = 0;
    let mut a: usize = 0;
    while a < k
        invariant
            k == usable@.len(),
            derefs(usable@) == u,
            a <= k,
            distinct == distinct_upto(u, a as nat),
            distinct <= a,
        decreases k - a,
    {
        let mut fresh = true;
        let mut b: usize = 0;
        while b < a
            invariant
                a < k == usable@.len(),
                derefs(usable@) == u,
                b <= a,
                fresh == forall|q: int| 0 <= q < b ==> deltas(#[trigger] u[q]) != deltas(u[a as int]),
            decreases a - b,
        {
            proof {
                assert(u[b as int] == *usable@[b as int] && u[a as int] == *usable@[a as int]);
            }
            if same_deltas(usable[b], usable[a]) {
                fresh = false;
            }
            b = b + 1;
        }
        if fresh {
            distinct = distinct + 1;
        }
        a = a + 1;
    }
    let mut all_zero = true;
    let mut a2: usize = 0;
    while a2 < k
        invariant
            k == usable@.len(),
            derefs(usable@) == u,
            a2 <= k,
            all_zero == forall|x: int, y: int| 0 <= x < a2 && 0 <= y < u[x].pairs@.len() ==> delta_of(#[trigger] u[x].pairs@[y]) == 0,
        decreases k - a2,
    {
        let ps = &usable[a2].pairs;
        proof {
            assert(u[a2 as int] == *usable@[a2 as int]);
        }
        let mut y: usize = 0;
        while y < ps.len()
            invariant
                a2 < k == usable@.len(),
                derefs(usable@) == u,
                *ps == u[a2 as int].pairs,
                y <= ps@.len(),
                all_zero == ((forall|x: int, z: int| 0 <= x < a2 && 0 <= z < u[x].pairs@.len() ==> delta_of(#[trigger] u[x].pairs@[z]) == 0)
                    && forall|z: int| 0 <= z < y ==> delta_of(#[trigger] ps@[z]) == 0),
            decreases ps@.len() - y,
        {
            if ps[y].delta() != 0 {
                all_zero = false;
            }
            y = y + 1;
        }
        proof {
            if all_zero {
                assert forall|x: int, z: int| 0 <= x < a2 + 1 && 0 <= z < u[x].pairs@.len() implies delta_of(#[trigger] u[x].pairs@[z]) == 0 by {
                    if x == a2 {
                        assert(u[x].pairs@[z] == ps@[z]);
                    }
                }
            } else {
                if forall|x: int, z: int| 0 <= x < a2 && 0 <= z < u[x].pairs@.len() ==> delta_of(#[trigger] u[x].pairs@[z]) == 0 {
                    let z = choose|z: int| 0 <= z < ps@.len() && delta_of(#[trigger] ps@[z]) != 0;
                    assert(u[a2 as int].pairs@[z] == ps@[z]);
                }
            }
        }
        a2 = a2 + 1;
    }
    let unmatched = sort_strings(labels);
    proof {
        assert(u[0] == *usable@[0]);
        if degenerate {
            assert forall|i: int| 0 <= i < u.len() implies delta_sum((#[trigger] u[i]).pairs@) * u[0].pairs@.len()
                == delta_sum(u[0].pairs@) * u[i].pairs@.len() by {
                assert(u[i] == *usable@[i]);
            }
        } else {
            let i = choose|i: int|
                0 <= i < usable@.len() && !(delta_sum((#[trigger] usable@[i]).pairs@) * usable@[0].pairs@.len()
                    == delta_sum(usable@[0].pairs@) * usable@[i].pairs@.len());
            assert(u[i] == *usable@[i]);
        }
        assert(cluster_sums(derefs(usable@)) == cluster_sums(u));
    }
    Ok(Some(BootstrapTally {
        treatment,
        baseline,
        clusters: k,
        pairs: total,
        delta_sum: sum,
        treatment_hits: t_hits,
        baseline_hits: b_hits,
        resamples: tallies,
        distinct_cluster_signatures: distinct,
        zero_between_cluster_variance: degenerate,
        every_delta_is_zero: all_zero,
        unmatched,
    }))
}

proof fn lemma_hit_bound(ds: Seq<PairedDelta>, treatment: bool)
    ensures
        0 <= hit_count(ds, treatment) <= ds.len(),
    decreases ds.len(),
{
    if ds.len() > 0 {
        lemma_hit_bound(ds.drop_last(), treatment);
    }
}

proof fn lemma_total_bounds(cs: Seq<TraceCluster>)
    ensures
        -total_pairs(cs) <= total_delta(cs) <= total_pairs(cs),
        0 <= total_hits(cs, true) <= total_pairs(cs),
        0 <= total_hits(cs, false) <= total_pairs(cs),
    decreases cs.len(),
{
    if cs.len() > 0 {
        lemma_total_bounds(cs.drop_last());
        lemma_delta_sum_bound(cs.last().pairs@);
        lemma_hit_bound(cs.last().pairs@, true);
        lemma_hit_bound(cs.last().pairs@, false);
    }
}

} // verus!
