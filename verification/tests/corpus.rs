use hari_core::corpus::{
    apply_kill_keep, check_corpus, fixture_provenance, pooling_violation, reconcile_provenance,
    trace_digest, ClauseStatus, CorpusDefect, CorpusProvenance, DualRuleReading,
    FixtureProvenance, KillKeepVerdict, ProvenanceDefect, RationaleNote, DECLARED_CORPUS_SUFFIXES,
};

fn fnv1a_reference(bytes: &[u8]) -> String {
    let mut hash: u64 = 0xcbf2_9ce4_8422_2325;
    for byte in bytes {
        hash ^= u64::from(*byte);
        hash = hash.wrapping_mul(0x100_0000_01b3);
    }
    format!("{hash:016x}")
}

#[test]
fn digest_of_nothing_is_the_offset_basis() {
    assert_eq!(trace_digest(b""), "cbf29ce484222325");
}

#[test]
fn digest_matches_fnv1a_64_on_known_inputs() {
    // Published FNV-1a-64 test vectors.
    assert_eq!(trace_digest(b"a"), "af63dc4c8601ec8c");
    assert_eq!(trace_digest(b"foobar"), "85944171f73967e8");
    let trace = br#"{"dimension":4,"events":[]}"#;
    assert_eq!(trace_digest(trace), fnv1a_reference(trace));
    assert_eq!(trace_digest(trace).len(), 16);
}

#[test]
fn an_edit_to_the_trace_changes_the_digest() {
    assert_ne!(trace_digest(b"{\"cycle\":1}"), trace_digest(b"{\"cycle\":2}"));
}

fn stamp(digest: &str) -> FixtureProvenance {
    FixtureProvenance {
        driver: "ix_reference/paired_driver".to_string(),
        spec: "g2".to_string(),
        seed: 7,
        trace_digest: digest.to_string(),
    }
}

#[test]
fn an_unstamped_fixture_is_authored() {
    assert_eq!(
        fixture_provenance(&None, b"{}"),
        Ok(CorpusProvenance::Authored)
    );
}

#[test]
fn a_stamp_matching_its_trace_is_driver_recorded() {
    let trace = b"{\"events\":[]}";
    let st = Some(stamp(&trace_digest(trace)));
    assert_eq!(
        fixture_provenance(&st, trace),
        Ok(CorpusProvenance::DriverRecorded)
    );
}

#[test]
fn a_stamp_on_an_edited_trace_is_refused() {
    let st = Some(stamp(&trace_digest(b"original")));
    let err = fixture_provenance(&st, b"edited").unwrap_err();
    assert_eq!(
        *err,
        ProvenanceDefect::DigestMismatch {
            driver: "ix_reference/paired_driver".to_string(),
            stamped: trace_digest(b"original"),
            recomputed: trace_digest(b"edited"),
        }
    );
}

#[test]
fn the_corpus_is_authoritative_over_the_declaration() {
    let (authored, recorded) = (CorpusProvenance::Authored, CorpusProvenance::DriverRecorded);
    assert_eq!(reconcile_provenance(authored, None), Ok(authored));
    assert_eq!(reconcile_provenance(recorded, None), Ok(recorded));
    assert_eq!(reconcile_provenance(recorded, Some(authored)), Ok(authored));
    assert_eq!(reconcile_provenance(authored, Some(authored)), Ok(authored));
    assert_eq!(
        reconcile_provenance(recorded, Some(recorded)),
        Ok(recorded)
    );
    assert_eq!(
        *reconcile_provenance(authored, Some(recorded)).unwrap_err(),
        ProvenanceDefect::Undeclared {
            declared: CorpusProvenance::DriverRecorded
        }
    );
}

#[test]
fn pooling_is_reported_with_the_first_of_each_corpus() {
    assert_eq!(
        pooling_violation(&["a-task", "b-isolation", "c-task", "d-isolation"]),
        Some(("b-isolation".to_string(), "a-task".to_string()))
    );
    assert_eq!(pooling_violation(&["a-task", "c-task"]), None);
    assert_eq!(pooling_violation(&["x-isolation"]), None);
    assert_eq!(pooling_violation(&[]), None);
}

#[test]
fn check_corpus_refuses_undeclared_pooled_and_repeated_traces() {
    assert_eq!(DECLARED_CORPUS_SUFFIXES, ["-isolation", "-task"]);
    assert_eq!(check_corpus(&["g1-task", "g2-task"]), Ok(()));
    assert_eq!(check_corpus(&[]), Ok(()));
    assert_eq!(
        check_corpus(&["g1-task", "propositionless_abstention", "g2-isolation"]),
        Err(CorpusDefect::UndeclaredCorpus {
            trace: "propositionless_abstention".to_string()
        })
    );
    assert_eq!(
        check_corpus(&["g1-task", "g2-isolation"]),
        Err(CorpusDefect::Pooled {
            isolation: "g2-isolation".to_string(),
            task: "g1-task".to_string()
        })
    );
    assert_eq!(
        check_corpus(&["g1-task", "g2-task", "g1-task"]),
        Err(CorpusDefect::DuplicateTrace {
            trace: "g1-task".to_string()
        })
    );
}

fn reading(passes: bool, degenerate: bool) -> DualRuleReading {
    DualRuleReading {
        dual_rule_passes: passes,
        zero_between_cluster_variance: degenerate,
        every_delta_is_zero: false,
    }
}

#[test]
fn keep_needs_both_clauses_on_a_recorded_corpus() {
    let d = apply_kill_keep(Some(reading(true, false)), Some(true), CorpusProvenance::DriverRecorded);
    assert_eq!(d.verdict, KillKeepVerdict::Keep);
    assert_eq!((d.clause1, d.clause2), (ClauseStatus::Passes, ClauseStatus::Passes));

    let d = apply_kill_keep(Some(reading(true, false)), None, CorpusProvenance::DriverRecorded);
    assert_eq!(d.verdict, KillKeepVerdict::Kill);
    assert_eq!(d.clause2, ClauseStatus::Undefined);

    let d = apply_kill_keep(Some(reading(false, false)), Some(true), CorpusProvenance::DriverRecorded);
    assert_eq!((d.verdict, d.clause1), (KillKeepVerdict::Kill, ClauseStatus::Fails));

    let d = apply_kill_keep(None, Some(false), CorpusProvenance::DriverRecorded);
    assert_eq!(
        (d.verdict, d.clause1, d.clause2),
        (KillKeepVerdict::Kill, ClauseStatus::Undefined, ClauseStatus::Fails)
    );
}

#[test]
fn a_degenerate_corpus_cannot_pass_clause_one() {
    let d = apply_kill_keep(Some(reading(true, true)), Some(true), CorpusProvenance::DriverRecorded);
    assert_eq!(d.clause1, ClauseStatus::Undefined);
    assert_eq!(d.verdict, KillKeepVerdict::Kill);
    // Degeneracy can manufacture a pass, never a failure.
    let d = apply_kill_keep(Some(reading(false, true)), Some(true), CorpusProvenance::DriverRecorded);
    assert_eq!(d.clause1, ClauseStatus::Fails);
}

#[test]
fn an_authored_corpus_never_gets_a_verdict() {
    let d = apply_kill_keep(Some(reading(true, false)), Some(true), CorpusProvenance::Authored);
    assert_eq!(d.verdict, KillKeepVerdict::WithheldByStandingRule);
    assert_eq!((d.clause1, d.clause2), (ClauseStatus::Passes, ClauseStatus::Passes));
    assert_eq!(d.provenance, CorpusProvenance::Authored);
}

#[test]
fn the_rationale_explains_each_clause_and_the_verdict() {
    let d = apply_kill_keep(Some(reading(true, false)), Some(true), CorpusProvenance::DriverRecorded);
    assert_eq!(d.rationale, vec![RationaleNote::DualRuleHolds, RationaleNote::CalibrationDoesNotLose]);

    let d = apply_kill_keep(None, None, CorpusProvenance::DriverRecorded);
    assert_eq!(
        d.rationale,
        vec![RationaleNote::NothingGradeable, RationaleNote::NoPerArmCalibration, RationaleNote::VerdictKill]
    );

    let d = apply_kill_keep(Some(reading(true, true)), Some(false), CorpusProvenance::Authored);
    assert_eq!(
        d.rationale,
        vec![RationaleNote::DegenerateCorpus, RationaleNote::CalibrationLoses, RationaleNote::VerdictWithheld]
    );

    let flat = DualRuleReading {
        dual_rule_passes: false,
        zero_between_cluster_variance: true,
        every_delta_is_zero: true,
    };
    let d = apply_kill_keep(Some(flat), Some(true), CorpusProvenance::DriverRecorded);
    assert_eq!(
        d.rationale,
        vec![
            RationaleNote::DualRuleFails { every_delta_is_zero: true },
            RationaleNote::CalibrationDoesNotLose,
            RationaleNote::VerdictKill
        ]
    );
}
