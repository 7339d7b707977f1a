use hari_core::bootstrap::{
    bind_arms, cluster_from_arms, every_cluster_has_the_same_mean, resample_tallies,
    tally_paired_difference, ArmBindingError, PairedDelta, SplitMix64, TraceCluster,
};
use hari_core::paired_eval::{grade_arm, PairOutcome, PairedArm};

fn delta(pair: &str, t: bool, b: bool) -> PairedDelta {
    PairedDelta {
        pair: pair.to_string(),
        treatment_correct: t,
        baseline_correct: b,
    }
}

fn cluster(trace: &str, pairs: Vec<PairedDelta>) -> TraceCluster {
    TraceCluster {
        trace: trace.to_string(),
        treatment: "subjective_logic".to_string(),
        baseline: "ix_unassisted".to_string(),
        pairs,
        unmatched: Vec::new(),
    }
}

fn arm(name: &str, pairs: &[(&str, bool)]) -> PairedArm {
    let mut a = grade_arm(name, None, &[], &[], &[]);
    a.paired.per_pair = pairs
        .iter()
        .map(|(p, ok)| PairOutcome {
            pair: p.to_string(),
            act_correct: *ok,
            abstain_correct: true,
        })
        .collect();
    a
}

#[test]
fn delta_is_treatment_minus_baseline() {
    assert_eq!(delta("p", true, false).delta(), 1);
    assert_eq!(delta("p", false, true).delta(), -1);
    assert_eq!(delta("p", true, true).delta(), 0);
    assert_eq!(delta("p", false, false).delta(), 0);
}

#[test]
fn a_cluster_joins_the_arms_and_names_what_only_one_graded() {
    let t = arm("subjective_logic", &[("p1", true), ("p2", false), ("only-t", true)]);
    let b = arm("ix_unassisted", &[("p2", true), ("p1", true), ("only-b", false)]);
    let c = cluster_from_arms("g1-task", &t, &b);
    assert_eq!(c.trace, "g1-task");
    assert_eq!(c.treatment, "subjective_logic");
    assert_eq!(c.baseline, "ix_unassisted");
    assert_eq!(c.pairs, vec![delta("p1", true, true), delta("p2", false, true)]);
    assert_eq!(c.unmatched, vec!["only-b".to_string(), "only-t".to_string()]);
}

#[test]
fn arm_identity_is_bound_from_the_clusters() {
    let a = cluster("t1-task", vec![delta("p", true, false)]);
    let b = cluster("t2-task", vec![delta("p", true, true)]);
    assert_eq!(
        bind_arms(&[&a, &b]),
        Ok(("subjective_logic".to_string(), "ix_unassisted".to_string()))
    );

    let mut swapped = b.clone();
    std::mem::swap(&mut swapped.treatment, &mut swapped.baseline);
    assert_eq!(
        bind_arms(&[&a, &swapped]),
        Err(ArmBindingError::Mismatch {
            trace: "t2-task".to_string(),
            treatment: "ix_unassisted".to_string(),
            baseline: "subjective_logic".to_string(),
            expected_treatment: "subjective_logic".to_string(),
            expected_baseline: "ix_unassisted".to_string(),
        })
    );

    let mut unlabeled = b.clone();
    unlabeled.baseline = String::new();
    assert_eq!(
        bind_arms(&[&a, &unlabeled]),
        Err(ArmBindingError::Unlabeled {
            trace: "t2-task".to_string()
        })
    );

    let mut same = a.clone();
    same.baseline = same.treatment.clone();
    assert_eq!(
        bind_arms(&[&same]),
        Err(ArmBindingError::SameArm {
            trace: "t1-task".to_string(),
            arm: "subjective_logic".to_string()
        })
    );
}

#[test]
fn splitmix64_matches_its_reference_sequence() {
    // Reference outputs of SplitMix64 seeded with 0.
    let mut rng = SplitMix64(0);
    assert_eq!(rng.next_u64(), 0xe220_a839_7b1d_cdaf);
    assert_eq!(rng.next_u64(), 0x6e78_9e6a_a1b9_65f4);
    assert_eq!(rng.next_u64(), 0x06c4_5d18_8009_454f);
    let mut r = SplitMix64(20_260_728);
    for _ in 0..100 {
        assert!(r.index(7) < 7);
    }
}

#[test]
fn equal_means_are_compared_exactly() {
    let a = cluster("a", vec![delta("1", true, false), delta("2", false, true)]);
    let b = cluster("b", vec![delta("1", false, true), delta("2", true, false)]);
    assert!(every_cluster_has_the_same_mean(&[&a, &b]));
    let c = cluster("c", vec![delta("1", true, false), delta("2", true, true)]);
    let d = cluster("d", vec![delta("1", true, false)]);
    assert!(!every_cluster_has_the_same_mean(&[&c, &d]));
    let e = cluster("e", vec![delta("1", true, false), delta("2", true, false)]);
    assert!(every_cluster_has_the_same_mean(&[&d, &e]));
}

#[test]
fn a_corpus_of_one_cluster_resamples_to_itself() {
    let a = cluster("a", vec![delta("1", true, false), delta("2", true, true)]);
    let t = resample_tallies(&[&a], 5, 1);
    assert_eq!(t, vec![(1, 2); 5]);
}

#[test]
fn resamples_draw_whole_traces_with_replacement() {
    let a = cluster("a", vec![delta("1", true, false)]);
    let b = cluster("b", vec![delta("1", false, true), delta("2", false, true)]);
    let t = resample_tallies(&[&a, &b], 50, 9);
    assert_eq!(t.len(), 50);
    for (sum, n) in &t {
        // Each resample draws two traces: a contributes (+1, 1), b (-2, 2).
        let ok = [(2, 2), (-1, 3), (-4, 4)];
        assert!(ok.contains(&(*sum, *n)), "impossible tally {sum}/{n}");
    }
    // Deterministic for a fixed seed.
    assert_eq!(t, resample_tallies(&[&a, &b], 50, 9));
}

#[test]
fn an_empty_corpus_has_no_interval() {
    assert_eq!(tally_paired_difference(&[], 10, 1), Ok(None));
    let empty = cluster("e", Vec::new());
    assert_eq!(tally_paired_difference(&[empty], 10, 1), Ok(None));
}

#[test]
fn the_tallies_cover_the_usable_clusters_and_list_unmatched_pairs() {
    let mut a = cluster("t1-task", vec![delta("1", true, false), delta("2", true, true)]);
    a.unmatched = vec!["z".to_string()];
    let mut b = cluster("t2-task", vec![delta("1", false, false)]);
    b.unmatched = vec!["a".to_string()];
    let mut empty = cluster("t0-task", Vec::new());
    empty.unmatched = vec!["m".to_string()];
    let t = tally_paired_difference(&[a.clone(), empty, b.clone()], 20, 3)
        .unwrap()
        .unwrap();
    assert_eq!(t.treatment, "subjective_logic");
    assert_eq!(t.baseline, "ix_unassisted");
    assert_eq!((t.clusters, t.pairs), (2, 3));
    assert_eq!(t.delta_sum, 1);
    assert_eq!((t.treatment_hits, t.baseline_hits), (2, 1));
    assert_eq!(t.resamples.len(), 20);
    assert_eq!(t.distinct_cluster_signatures, 2);
    assert!(!t.zero_between_cluster_variance);
    assert!(!t.every_delta_is_zero);
    assert_eq!(
        t.unmatched,
        vec!["t0-task/m".to_string(), "t1-task/z".to_string(), "t2-task/a".to_string()]
    );
}

#[test]
fn a_corpus_of_clones_is_flagged() {
    let a = cluster("t1-task", vec![delta("1", true, false)]);
    let mut b = a.clone();
    b.trace = "t2-task".to_string();
    let t = tally_paired_difference(&[a, b], 10, 1).unwrap().unwrap();
    assert_eq!(t.distinct_cluster_signatures, 1);
    assert!(t.zero_between_cluster_variance);
    // Every resample returns the same statistic.
    assert!(t.resamples.iter().all(|r| *r == (2, 2)));
}

#[test]
fn a_mislabeled_corpus_is_refused() {
    let a = cluster("t1-task", vec![delta("1", true, false)]);
    let mut b = cluster("t2-task", vec![delta("1", true, false)]);
    b.treatment = "lie".to_string();
    assert!(matches!(
        tally_paired_difference(&[a, b], 10, 1),
        Err(ArmBindingError::Mismatch { .. })
    ));
}
