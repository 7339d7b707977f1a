//! What a corpus may be used for: where its fixtures came from, which of them
//! may be aggregated together, and the kill/keep rule applied to the result.
//!
//! The standing rule is enforced against the corpus rather than remembered:
//! an unstamped fixture is authored, a stamped one is driver-recorded only
//! while its digest still matches its trace, and no verdict is ever emitted
//! on an authored corpus.

use vstd::prelude::*;
use crate::text::{has_suffix, ends_with, str_eq, owned, push_char, empty_string};

verus! {

/// Where a corpus came from.
#[derive(Debug, Clone, Copy, PartialEq, Eq, Structural)]
pub enum CorpusProvenance {
    /// Hand-authored fixtures — instrument characterisation only.
    Authored,
    /// Recorded by the driver from a live session.
    DriverRecorded,
}

/// A driver's stamp on a fixture it generated: which driver, from which
/// declared spec and seed, and the digest of the trace it produced.
#[derive(Debug, Clone, PartialEq, Eq)]
pub struct FixtureProvenance {
    /// The driver that generated this fixture.
    pub driver: String,
    /// The declared generative spec the trace was drawn from.
    pub spec: String,
    /// The seed this trace was drawn with.
    pub seed: u64,
    /// FNV-1a-64 digest of the trace at generation time, 16 lowercase hex
    /// digits.
    pub trace_digest: String,
}

/// Why a fixture's provenance stamp could not be honoured.
#[derive(Debug, Clone, PartialEq, Eq)]
pub enum ProvenanceDefect {
    /// The stamp does not match the trace it is attached to.
    DigestMismatch { driver: String, stamped: String, recomputed: String },
    /// The caller declared a provenance the fixtures do not support.
    Undeclared { declared: CorpusProvenance },
}

/// FNV-1a over a byte string: start from the 64-bit offset basis, and for
/// each byte xor it in and multiply by the 64-bit prime, wrapping.
pub open spec fn fnv1a(bytes: Seq<u8>) -> u64
    decreases bytes.len(),
{
    if bytes.len() == 0 {
        0xcbf2_9ce4_8422_2325u64
    } else {
        (fnv1a(bytes.drop_last()) ^ (bytes.last() as u64)).wrapping_mul(0x100_0000_01b3u64)
    }
}

/// The lowercase hexadecimal digit for `n < 16`.
pub open spec fn hex_digit(n: nat) -> char {
    if n < 10 {
        (48 + n) as char
    } else {
        (87 + n) as char
    }
}

/// The last `width` hexadecimal digits of `h`, most significant first,
/// zero-padded.
pub open spec fn hex_fixed(h: nat, width: nat) -> Seq<char>
    decreases width,
{
    if width == 0 {
        Seq::empty()
    } else {
        hex_fixed(h / 16, (width - 1) as nat).push(hex_digit(h % 16))
    }
}

fn hex_char(d: u64) -> (c: char)
    requires
        d < 16,
    ensures
        c == hex_digit(d as nat),
{
    match d {
        0 => '0',
        1 => '1',
        2 => '2',
        3 => '3',
        4 => '4',
        5 => '5',
        6 => '6',
        7 => '7',
        8 => '8',
        9 => '9',
        10 => 'a',
        11 => 'b',
        12 => 'c',
        13 => 'd',
        14 => 'e',
        _ => 'f',
    }
}

pub(crate) fn push_hex(s: &mut String, h: u64, width: usize)
    ensures
        final(s)@ == old(s)@ + hex_fixed(h as nat, width as nat),
    decreases width,
{
    if width > 0 {
        push_hex(s, h / 16, width - 1);
        push_char(s, hex_char(h % 16));
        proof {
            assert(hex_fixed(h as nat, width as nat) == hex_fixed((h / 16) as nat, (width - 1) as nat).push(
                hex_digit((h % 16) as nat),
            ));
        }
    } else {
        proof {
            assert(old(s)@ + hex_fixed(h as nat, 0) =~= old(s)@);
        }
    }
}

/// FNV-1a-64 of `bytes`, as 16 lowercase hexadecimal digits. Applied to the
/// canonical serialization of a trace, this is the trace's digest: an edit
/// to the trace changes it. Tamper-evidence only; it is not a cryptographic
/// hash.
pub fn trace_digest(bytes: &[u8]) -> (r: String)
    ensures
        r@ == hex_fixed(fnv1a(bytes@) as nat, 16),
{
    let mut hash: u64 = 0xcbf2_9ce4_8422_2325;
    let mut i: usize = 0;
    while i < bytes.len()
        invariant
            i <= bytes@.len(),
            hash == fnv1a(bytes@.take(i as int)),
        decreases bytes@.len() - i,
    {
        proof {
            assert(bytes@.take(i + 1).drop_last() =~= bytes@.take(i as int));
        }
        hash = (hash ^ (bytes[i] as u64)).wrapping_mul(0x100_0000_01b3);
        i = i + 1;
    }
    proof {
        assert(bytes@.take(bytes@.len() as int) =~= bytes@);
    }
    let mut r = empty_string();
    push_hex(&mut r, hash, 16);
    proof {
        assert(Seq::<char>::empty() + hex_fixed(hash as nat, 16) =~= hex_fixed(hash as nat, 16));
    }
    r
}

/// Read a fixture's provenance from its stamp and the canonical bytes of the
/// trace it is attached to. No stamp: `Authored`. A stamp whose digest matches
/// the trace's: `DriverRecorded`. A stamp whose digest does not: refused.
pub fn fixture_provenance(stamp: &Option<FixtureProvenance>, trace_bytes: &[u8]) -> (r: Result<
    CorpusProvenance,
    Box<ProvenanceDefect>,
>)
    ensures
        match stamp {
            None => r == Ok::<CorpusProvenance, Box<ProvenanceDefect>>(CorpusProvenance::Authored),
            Some(st) => if st.trace_digest@ == hex_fixed(fnv1a(trace_bytes@) as nat, 16) {
                r == Ok::<CorpusProvenance, Box<ProvenanceDefect>>(CorpusProvenance::DriverRecorded)
            } else {
                match r {
                    Err(d) => match *d {
                        ProvenanceDefect::DigestMismatch { driver, stamped, recomputed } => driver@
                            == st.driver@ && stamped@ == st.trace_digest@ && recomputed@ == hex_fixed(
                            fnv1a(trace_bytes@) as nat,
                            16,
                        ),
                        _ => false,
                    },
                    Ok(_) => false,
                }
            },
        },
{
    match stamp {
        None => Ok(CorpusProvenance::Authored),
        Some(st) => {
            let recomputed = trace_digest(trace_bytes);
            if !str_eq(recomputed.as_str(), st.trace_digest.as_str()) {
                Err(
                    Box::new(
                        ProvenanceDefect::DigestMismatch {
                            driver: st.driver.clone(),
                            stamped: st.trace_digest.clone(),
                            recomputed,
                        },
                    ),
                )
            } else {
                Ok(CorpusProvenance::DriverRecorded)
            }
        },
    }
}

/// Reconcile what the corpus proves with what the caller declared. The
/// corpus is authoritative: a caller may always downgrade to `Authored`, but
/// may never declare `DriverRecorded` over fixtures that carry no stamp.
pub fn reconcile_provenance(derived: CorpusProvenance, declared: Option<CorpusProvenance>) -> (r: Result<
    CorpusProvenance,
    Box<ProvenanceDefect>,
>)
    ensures
        match (derived, declared) {
            (CorpusProvenance::Authored, Some(CorpusProvenance::DriverRecorded)) => match r {
                Err(d) => *d == ProvenanceDefect::Undeclared {
                    declared: CorpusProvenance::DriverRecorded,
                },
                Ok(_) => false,
            },
            (CorpusProvenance::DriverRecorded, Some(CorpusProvenance::Authored)) => r == Ok::<
                CorpusProvenance,
                Box<ProvenanceDefect>,
            >(CorpusProvenance::Authored),
            _ => r == Ok::<CorpusProvenance, Box<ProvenanceDefect>>(derived),
        },
{
    match (derived, declared) {
        (_, None) => Ok(derived),
        (CorpusProvenance::DriverRecorded, Some(CorpusProvenance::Authored)) => Ok(
            CorpusProvenance::Authored,
        ),
        (CorpusProvenance::Authored, Some(CorpusProvenance::DriverRecorded)) => Err(
            Box::new(ProvenanceDefect::Undeclared { declared: CorpusProvenance::DriverRecorded }),
        ),
        _ => Ok(derived),
    }
}


/// The suffixes a corpus is declared by. A trace id ending in neither
/// belongs to no declared corpus.
pub const DECLARED_CORPUS_SUFFIXES: [&'static str; 2] = ["-isolation", "-task"];

/// The trace id names an isolation corpus trace.
pub open spec fn is_isolation(t: Seq<char>) -> bool {
    has_suffix(t, "-isolation"@)
}

/// The trace id names a task corpus trace.
pub open spec fn is_task(t: Seq<char>) -> bool {
    has_suffix(t, "-task"@)
}

/// `i` is the first index whose trace id satisfies `f`.
pub open spec fn first_where(traces: Seq<&str>, i: int, f: spec_fn(Seq<char>) -> bool) -> bool {
    &&& 0 <= i < traces.len()
    &&& f(traces[i]@)
    &&& forall|k: int| 0 <= k < i ==> !f(#[trigger] traces[k]@)
}

/// Some trace id satisfies `f`.
pub open spec fn any_where(traces: Seq<&str>, f: spec_fn(Seq<char>) -> bool) -> bool {
    exists|i: int| 0 <= i < traces.len() && f(#[trigger] traces[i]@)
}

fn find_first(traces: &[&str], suffix: &str) -> (r: Option<usize>)
    ensures
        match r {
            Some(i) => first_where(traces@, i as int, |t: Seq<char>| has_suffix(t, suffix@)),
            None => !any_where(traces@, |t: Seq<char>| has_suffix(t, suffix@)),
        },
{
    let mut i: usize = 0;
    while i < traces.len()
        invariant
            i <= traces@.len(),
            forall|k: int| 0 <= k < i ==> !has_suffix(#[trigger] traces@[k]@, suffix@),
        decreases traces@.len() - i,
    {
        if ends_with(traces[i], suffix) {
            return Some(i);
        }
        i = i + 1;
    }
    None
}

/// The non-pooling rule: the isolation and task corpora are never pooled.
/// Returns the first isolation trace id and the first task trace id when both
/// kinds are present.
pub fn pooling_violation(traces: &[&str]) -> (r: Option<(String, String)>)
    ensures
        r is Some <==> (any_where(traces@, |t: Seq<char>| is_isolation(t)) && any_where(
            traces@,
            |t: Seq<char>| is_task(t),
        )),
        match r {
            Some((a, b)) => exists|i: int, j: int|
                first_where(traces@, i, |t: Seq<char>| is_isolation(t)) && first_where(
                    traces@,
                    j,
                    |t: Seq<char>| is_task(t),
                ) && a@ == traces@[i]@ && b@ == traces@[j]@,
            None => true,
        },
{
    let iso = find_first(traces, "-isolation");
    let task = find_first(traces, "-task");
    proof {
        assert((|t: Seq<char>| has_suffix(t, "-isolation"@)) =~= (|t: Seq<char>| is_isolation(t)));
        assert((|t: Seq<char>| has_suffix(t, "-task"@)) =~= (|t: Seq<char>| is_task(t)));
    }
    match (iso, task) {
        (Some(i), Some(j)) => Some((owned(traces[i]), owned(traces[j]))),
        _ => None,
    }
}

/// Why a set of trace ids is not a corpus that may be aggregated.
#[derive(Debug, Clone, PartialEq, Eq)]
pub enum CorpusDefect {
    /// The isolation and task corpora are never pooled.
    Pooled { isolation: String, task: String },
    /// A trace id belonging to neither declared corpus.
    UndeclaredCorpus { trace: String },
    /// The same trace id twice — one trace counted as two resampling units.
    DuplicateTrace { trace: String },
}

/// The trace id belongs to a declared corpus.
pub open spec fn is_declared(t: Seq<char>) -> bool {
    is_isolation(t) || is_task(t)
}

/// Trace id `i` repeats an earlier one.
pub open spec fn repeats_earlier(traces: Seq<&str>, i: int) -> bool {
    exists|k: int| 0 <= k < i && (#[trigger] traces[k])@ == traces[i]@
}

/// The corpus rule: every trace id names a declared corpus, the two corpora
/// are not pooled, and no trace id repeats. The first broken rule, in that
/// order, is reported, naming the first offending id.
pub fn check_corpus(traces: &[&str]) -> (r: Result<(), CorpusDefect>)
    ensures
        (exists|i: int| 0 <= i < traces@.len() && !is_declared(#[trigger] traces@[i]@)) ==> match r {
            Err(CorpusDefect::UndeclaredCorpus { trace }) => exists|i: int|
                first_where(traces@, i, |t: Seq<char>| !is_declared(t)) && trace@ == traces@[i]@,
            _ => false,
        },
        (forall|i: int| 0 <= i < traces@.len() ==> is_declared(#[trigger] traces@[i]@)) && any_where(
            traces@,
            |t: Seq<char>| is_isolation(t),
        ) && any_where(traces@, |t: Seq<char>| is_task(t)) ==> match r {
            Err(CorpusDefect::Pooled { isolation, task }) => exists|i: int, j: int|
                first_where(traces@, i, |t: Seq<char>| is_isolation(t)) && first_where(
                    traces@,
                    j,
                    |t: Seq<char>| is_task(t),
                ) && isolation@ == traces@[i]@ && task@ == traces@[j]@,
            _ => false,
        },
        (forall|i: int| 0 <= i < traces@.len() ==> is_declared(#[trigger] traces@[i]@)) && !(any_where(
            traces@,
            |t: Seq<char>| is_isolation(t),
        ) && any_where(traces@, |t: Seq<char>| is_task(t))) ==> match r {
            Ok(()) => forall|i: int| 0 <= i < traces@.len() ==> !#[trigger] repeats_earlier(traces@, i),
            Err(CorpusDefect::DuplicateTrace { trace }) => exists|i: int|
                0 <= i < traces@.len() && repeats_earlier(traces@, i) && (forall|k: int|
                    0 <= k < i ==> !#[trigger] repeats_earlier(traces@, k)) && trace@ == traces@[i]@,
            _ => false,
        },
{
    let mut i: usize = 0;
    while i < traces.len()
        invariant
            i <= traces@.len(),
            forall|k: int| 0 <= k < i ==> is_declared(#[trigger] traces@[k]@),
        decreases traces@.len() - i,
    {
        let declared = ends_with(traces[i], DECLARED_CORPUS_SUFFIXES[0]) || ends_with(
            traces[i],
            DECLARED_CORPUS_SUFFIXES[1],
        );
        proof {
            assert(DECLARED_CORPUS_SUFFIXES[0]@ == "-isolation"@);
            assert(DECLARED_CORPUS_SUFFIXES[1]@ == "-task"@);
        }
        if !declared {
            proof {
                assert(first_where(traces@, i as int, |t: Seq<char>| !is_declared(t)));
            }
            return Err(CorpusDefect::UndeclaredCorpus { trace: owned(traces[i]) });
        }
        i = i + 1;
    }
    match pooling_violation(traces) {
        Some((isolation, task)) => {
            return Err(CorpusDefect::Pooled { isolation, task });
        },
        None => {},
    }
    let mut j: usize = 0;
    while j < traces.len()
        invariant
            j <= traces@.len(),
            forall|k: int| 0 <= k < traces@.len() ==> is_declared(#[trigger] traces@[k]@),
            !(any_where(traces@, |t: Seq<char>| is_isolation(t)) && any_where(
                traces@,
                |t: Seq<char>| is_task(t),
            )),
            forall|k: int| 0 <= k < j ==> !#[trigger] repeats_earlier(traces@, k),
        decreases traces@.len() - j,
    {
        let mut k: usize = 0;
        while k < j
            invariant
                k <= j < traces@.len(),
                forall|q: int| 0 <= q < k ==> (#[trigger] traces@[q])@ != traces@[j as int]@,
                forall|q: int| 0 <= q < traces@.len() ==> is_declared(#[trigger] traces@[q]@),
                !(any_where(traces@, |t: Seq<char>| is_isolation(t)) && any_where(
                    traces@,
                    |t: Seq<char>| is_task(t),
                )),
                forall|q: int| 0 <= q < j ==> !#[trigger] repeats_earlier(traces@, q),
            decreases j - k,
        {
            if str_eq(traces[k], traces[j]) {
                proof {
                    assert(repeats_earlier(traces@, j as int));
                }
                return Err(CorpusDefect::DuplicateTrace { trace: owned(traces[j]) });
            }
            k = k + 1;
        }
        j = j + 1;
    }
    Ok(())
}


/// One clause's state. `Undefined` is distinct from `Fails`: the instrument
/// the clause reads does not exist yet.
#[derive(Debug, Clone, Copy, PartialEq, Eq, Structural)]
pub enum ClauseStatus {
    Passes,
    Fails,
    /// Not measurable — reported as such, never silently treated as a pass.
    Undefined,
}

/// The kill/keep outcome.
#[derive(Debug, Clone, Copy, PartialEq, Eq, Structural)]
pub enum KillKeepVerdict {
    /// Both clauses hold on a recorded corpus.
    Keep,
    /// Either clause fails or is undefined.
    Kill,
    /// The corpus is authored, so no verdict is emitted.
    WithheldByStandingRule,
}

/// What clause 1 reads of the bootstrap: whether the dual rule (interval
/// excludes zero and p below alpha) held, and whether the corpus has no
/// between-cluster variance, in which case any non-zero estimate clears the
/// rule by construction.
#[derive(Debug, Clone, Copy, PartialEq, Eq, Structural)]
pub struct DualRuleReading {
    pub dual_rule_passes: bool,
    pub zero_between_cluster_variance: bool,
    /// Every decision agreed: the difference is identically zero.
    pub every_delta_is_zero: bool,
}

/// Why a clause landed where it did, or which rule set the verdict. The
/// report's narrative follows these notes; the figures they speak of (the
/// estimate, its interval and p-value, the mean Brier scores) are rendered
/// beside them by the caller that holds those figures.
#[derive(Debug, Clone, Copy, PartialEq, Eq, Structural)]
pub enum RationaleNote {
    /// Clause 1: no bootstrap output, so nothing was gradeable in both arms.
    NothingGradeable,
    /// Clause 1: the dual rule cleared only because the corpus has no
    /// between-cluster variance; the interval measures the corpus's design.
    DegenerateCorpus,
    /// Clause 1: the dual rule holds.
    DualRuleHolds,
    /// Clause 1: the dual rule fails; `every_delta_is_zero` when the arms
    /// agree at every decision, so the difference is identically zero.
    DualRuleFails { every_delta_is_zero: bool },
    /// Clause 2: no per-arm calibration exists, so the clause is undefined.
    NoPerArmCalibration,
    /// Clause 2: the experimental arm's mean Brier is no worse.
    CalibrationDoesNotLose,
    /// Clause 2: the experimental arm loses on calibration.
    CalibrationLoses,
    /// The verdict is withheld: the corpus is authored.
    VerdictWithheld,
    /// The verdict is KILL: a clause failed or is undefined.
    VerdictKill,
}

/// The kill/keep rule applied to a corpus.
#[derive(Debug, Clone, PartialEq, Eq)]
pub struct KillKeepDecision {
    pub verdict: KillKeepVerdict,
    /// The experimental arm beats the unassisted arm under the dual rule.
    pub clause1: ClauseStatus,
    /// The experimental arm does not lose on calibration.
    pub clause2: ClauseStatus,
    pub provenance: CorpusProvenance,
    /// Why each clause landed where it did and, for a withheld verdict or a
    /// KILL, which rule set it.
    pub rationale: Vec<RationaleNote>,
}

/// Clause 1's status: undefined without a bootstrap, undefined when the
/// dual rule passes only because the corpus has no between-cluster variance,
/// otherwise the dual rule's outcome.
pub open spec fn clause1_status(reading: Option<DualRuleReading>) -> ClauseStatus {
    match reading {
        None => ClauseStatus::Undefined,
        Some(b) => if b.dual_rule_passes && b.zero_between_cluster_variance {
            ClauseStatus::Undefined
        } else if b.dual_rule_passes {
            ClauseStatus::Passes
        } else {
            ClauseStatus::Fails
        },
    }
}

/// Clause 2's status: undefined without per-arm calibration, otherwise
/// whether the experimental arm's mean Brier is no worse.
pub open spec fn clause2_status(does_not_lose: Option<bool>) -> ClauseStatus {
    match does_not_lose {
        None => ClauseStatus::Undefined,
        Some(true) => ClauseStatus::Passes,
        Some(false) => ClauseStatus::Fails,
    }
}

/// The note on clause 1, read as `clause1_status` reads the bootstrap.
pub open spec fn clause1_note(reading: Option<DualRuleReading>) -> RationaleNote {
    match reading {
        None => RationaleNote::NothingGradeable,
        Some(b) => if b.dual_rule_passes && b.zero_between_cluster_variance {
            RationaleNote::DegenerateCorpus
        } else if b.dual_rule_passes {
            RationaleNote::DualRuleHolds
        } else {
            RationaleNote::DualRuleFails { every_delta_is_zero: b.every_delta_is_zero }
        },
    }
}

/// The note on clause 2.
pub open spec fn clause2_note(does_not_lose: Option<bool>) -> RationaleNote {
    match does_not_lose {
        None => RationaleNote::NoPerArmCalibration,
        Some(true) => RationaleNote::CalibrationDoesNotLose,
        Some(false) => RationaleNote::CalibrationLoses,
    }
}

/// The whole rationale: the note on clause 1, the note on clause 2, then a
/// note on the verdict unless it is a KEEP.
pub open spec fn rationale_of(
    reading: Option<DualRuleReading>,
    does_not_lose: Option<bool>,
    provenance: CorpusProvenance,
) -> Seq<RationaleNote> {
    let clauses = seq![clause1_note(reading), clause2_note(does_not_lose)];
    match provenance {
        CorpusProvenance::Authored => clauses.push(RationaleNote::VerdictWithheld),
        CorpusProvenance::DriverRecorded => if clause1_status(reading) == ClauseStatus::Passes
            && clause2_status(does_not_lose) == ClauseStatus::Passes {
            clauses
        } else {
            clauses.push(RationaleNote::VerdictKill)
        },
    }
}

/// Apply the kill/keep rule. KEEP only if both clauses pass on a recorded
/// corpus; an undefined clause cannot satisfy KEEP; on an authored corpus the
/// clauses are still reported and the verdict is withheld.
/// `calibration_does_not_lose` is whether the experimental arm's mean Brier
/// is at most Subjective Logic's, when per-arm calibration exists.
pub fn apply_kill_keep(
    clause1: Option<DualRuleReading>,
    calibration_does_not_lose: Option<bool>,
    provenance: CorpusProvenance,
) -> (d: KillKeepDecision)
    ensures
        d.clause1 == clause1_status(clause1),
        d.clause2 == clause2_status(calibration_does_not_lose),
        d.provenance == provenance,
        d.verdict == match provenance {
            CorpusProvenance::Authored => KillKeepVerdict::WithheldByStandingRule,
            CorpusProvenance::DriverRecorded => if d.clause1 == ClauseStatus::Passes && d.clause2
                == ClauseStatus::Passes {
                KillKeepVerdict::Keep
            } else {
                KillKeepVerdict::Kill
            },
        },
        d.rationale@ == rationale_of(clause1, calibration_does_not_lose, provenance),
{
    let mut rationale: Vec<RationaleNote> = Vec::new();
    let c1 = match clause1 {
        None => {
            rationale.push(RationaleNote::NothingGradeable);
            ClauseStatus::Undefined
        },
        Some(b) => if b.dual_rule_passes && b.zero_between_cluster_variance {
            rationale.push(RationaleNote::DegenerateCorpus);
            ClauseStatus::Undefined
        } else if b.dual_rule_passes {
            rationale.push(RationaleNote::DualRuleHolds);
            ClauseStatus::Passes
        } else {
            rationale.push(RationaleNote::DualRuleFails { every_delta_is_zero: b.every_delta_is_zero });
            ClauseStatus::Fails
        },
    };
    let c2 = match calibration_does_not_lose {
        None => {
            rationale.push(RationaleNote::NoPerArmCalibration);
            ClauseStatus::Undefined
        },
        Some(true) => {
            rationale.push(RationaleNote::CalibrationDoesNotLose);
            ClauseStatus::Passes
        },
        Some(false) => {
            rationale.push(RationaleNote::CalibrationLoses);
            ClauseStatus::Fails
        },
    };
    let verdict = match provenance {
        CorpusProvenance::Authored => {
            rationale.push(RationaleNote::VerdictWithheld);
            KillKeepVerdict::WithheldByStandingRule
        },
        CorpusProvenance::DriverRecorded => if c1 == ClauseStatus::Passes && c2 == ClauseStatus::Passes {
            KillKeepVerdict::Keep
        } else {
            rationale.push(RationaleNote::VerdictKill);
            KillKeepVerdict::Kill
        },
    };
    proof {
        assert(rationale@ =~= rationale_of(clause1, calibration_does_not_lose, provenance));
    }
    KillKeepDecision { verdict, clause1: c1, clause2: c2, provenance, rationale }
}

/// The standing rule and the degeneracy guard, together: no authored corpus
/// ever yields a verdict, a KEEP needs a recorded corpus on which both clauses
/// pass, and a corpus with no between-cluster variance can never pass clause 1
/// — degeneracy can manufacture a pass, so it is never read as one. The
/// rationale explains both clauses and, unless the verdict is a KEEP, ends
/// with the rule that set it.
pub proof fn law_keep_needs_a_recorded_corpus_and_a_real_effect(
    clause1: Option<DualRuleReading>,
    calibration_does_not_lose: Option<bool>,
    provenance: CorpusProvenance,
    d: KillKeepDecision,
)
    requires
        d.clause1 == clause1_status(clause1),
        d.clause2 == clause2_status(calibration_does_not_lose),
        d.provenance == provenance,
        d.verdict == match provenance {
            CorpusProvenance::Authored => KillKeepVerdict::WithheldByStandingRule,
            CorpusProvenance::DriverRecorded => if d.clause1 == ClauseStatus::Passes && d.clause2
                == ClauseStatus::Passes {
                KillKeepVerdict::Keep
            } else {
                KillKeepVerdict::Kill
            },
        },
        d.rationale@ == rationale_of(clause1, calibration_does_not_lose, provenance),
    ensures
        provenance == CorpusProvenance::Authored ==> d.verdict == KillKeepVerdict::WithheldByStandingRule,
        d.verdict == KillKeepVerdict::Keep ==> (provenance == CorpusProvenance::DriverRecorded
            && (clause1 matches Some(b) && b.dual_rule_passes && !b.zero_between_cluster_variance)
            && calibration_does_not_lose == Some(true)),
        (clause1 matches Some(b) && b.zero_between_cluster_variance) ==> d.clause1 != ClauseStatus::Passes,
        (clause1 matches Some(b) && !b.dual_rule_passes) ==> d.clause1 == ClauseStatus::Fails,
        d.rationale@.len() >= 2,
        d.verdict == KillKeepVerdict::Keep ==> d.rationale@.len() == 2,
        d.verdict == KillKeepVerdict::Kill ==> d.rationale@.last() == RationaleNote::VerdictKill,
        d.verdict == KillKeepVerdict::WithheldByStandingRule ==> d.rationale@.last()
            == RationaleNote::VerdictWithheld,
{
}

} // verus!
