use qdimacs_splitter::{
    assume_split, parse_qdimacs, produce_statistics_from_run, reduce_result, to_u64, Quantifier,
    ReduceError, SolverResult, SolverReturnCode,
};

fn res(result: SolverReturnCode, wall_millis: u64, name: &str) -> SolverResult {
    SolverResult { wall_millis, result, name: String::from(name) }
}

#[test]
fn bit_encoding_is_most_significant_first() {
    assert_eq!(to_u64(&[1, -2, 3]), 5);
    assert_eq!(to_u64(&[-1, -2]), 0);
    assert_eq!(to_u64(&[1, 2]), 3);
    assert_eq!(to_u64(&[]), 0);
}

#[test]
fn default_split_enumeration_depth_two() {
    // four sub-formulas, each pinning both variables
    let f = parse_qdimacs("p cnf 2 1\ne 1 2 0\n1 -2 0\n").unwrap();
    let splits = f.produce_splits(2);
    assert_eq!(splits.len(), 4);
    assert_eq!(splits[0], vec![-1, -2]);
    assert_eq!(splits[1], vec![-1, 2]);
    assert_eq!(splits[2], vec![1, -2]);
    assert_eq!(splits[3], vec![1, 2]);
}

#[test]
fn assumed_subformula_gains_unit_clauses() {
    let f = parse_qdimacs("p cnf 2 1\ne 1 2 0\n1 -2 0\n").unwrap();
    let splits = f.produce_splits(2);
    for v in &splits {
        let sub = assume_split(&f, v);
        assert_eq!(sub.nr_of_clauses, 3);
        assert_eq!(sub.matrix.len(), 3);
        assert_eq!(sub.matrix[1], vec![v[0]]);
        assert_eq!(sub.matrix[2], vec![v[1]]);
    }
}

#[test]
fn assumed_universal_becomes_existential() {
    let f = parse_qdimacs("p cnf 3 1\na 1 0\ne 2 3 0\n1 2 3 0\n").unwrap();
    let splits = f.produce_splits(1);
    assert_eq!(splits.len(), 2);
    for v in &splits {
        let sub = assume_split(&f, v);
        // variable 1 is fixed by the assumption, so its quantifier flips
        assert_eq!(sub.prefix[0], -1);
        assert_eq!(sub.prefix[1], -2);
        assert_eq!(sub.prefix[2], -3);
    }
}

#[test]
fn less_than_split_keeps_small_encodings() {
    let f = parse_qdimacs("p cnf 2 1\ne 1 2 0\nIS 1 2 < 2 0\n1 2 0\n").unwrap();
    let splits = f.produce_splits(2);
    assert_eq!(splits.len(), 2);
    assert_eq!(splits[0], vec![-1, -2]);
    assert_eq!(splits[1], vec![-1, 2]);
}

#[test]
fn equals_split_keeps_matching_patterns() {
    let f = parse_qdimacs("p cnf 2 1\ne 1 2 0\nIS 1 2 = 01 10 0\n1 2 0\n").unwrap();
    let splits = f.produce_splits(2);
    assert_eq!(splits.len(), 2);
    assert_eq!(splits[0], vec![-1, 2]);
    assert_eq!(splits[1], vec![1, -2]);
}

#[test]
fn nr_of_splits_counts_accepted_assignments() {
    let f = parse_qdimacs("p cnf 2 1\ne 1 2 0\nIS 1 2 < 2 0\n1 2 0\n").unwrap();
    assert_eq!(f.splits[0].nr_of_splits(), 2);
    let g = parse_qdimacs("p cnf 2 1\ne 1 2 0\nIS 1 2 < 9 0\n1 2 0\n").unwrap();
    // the bound exceeds the four possible assignments
    assert_eq!(g.splits[0].nr_of_splits(), 4);
}

#[test]
fn nr_of_splits_counts_distinct_alternatives() {
    let f = parse_qdimacs("p cnf 2 1\ne 1 2 0\nIS 1 2 = 01 10 0\n1 2 0\n").unwrap();
    assert_eq!(f.splits[0].nr_of_splits(), 2);
    let g = parse_qdimacs("p cnf 2 1\ne 1 2 0\nIS 1 2 = 01 01 0\n1 2 0\n").unwrap();
    // a duplicated alternative names only one assignment
    assert_eq!(g.splits[0].nr_of_splits(), 1);
}

#[test]
fn enumerator_and_nr_of_splits_agree() {
    let f = parse_qdimacs("p cnf 2 1\ne 1 2 0\nIS 1 2 = 01 10 11 0\n1 2 0\n").unwrap();
    assert_eq!(f.produce_splits(2).len(), f.splits[0].nr_of_splits());
}

#[test]
fn round_fitting_takes_whole_splits_only() {
    let f = parse_qdimacs("p cnf 3 1\ne 1 2 3 0\nIS 1 2 < 3 0\nIS 3 < 2 0\n1 0\n").unwrap();
    assert_eq!(f.embedded_splits_round_fitting(1), (0, 0));
    assert_eq!(f.embedded_splits_round_fitting(2), (2, 1));
    assert_eq!(f.embedded_splits_round_fitting(3), (3, 2));
    assert_eq!(f.embedded_splits_round_fitting(9), (3, 2));
    assert_eq!(f.embedded_splits_max_depth(), 3);
}

#[test]
fn existential_reduction_takes_fastest_sat() {
    let layer = vec![
        res(SolverReturnCode::Sat, 3000, "a"),
        res(SolverReturnCode::Unsat, 5000, "b"),
        res(SolverReturnCode::Sat, 7000, "c"),
        res(SolverReturnCode::Sat, 9000, "d"),
    ];
    let fused = reduce_result(Quantifier::Exists, 4, layer);
    assert_eq!(fused.len(), 1);
    assert_eq!(fused[0].result, SolverReturnCode::Sat);
    assert_eq!(fused[0].wall_millis, 3000);
    assert_eq!(fused[0].name, "a");
}

#[test]
fn universal_reduction_takes_fastest_unsat() {
    let layer = vec![
        res(SolverReturnCode::Sat, 3000, "a"),
        res(SolverReturnCode::Unsat, 5000, "b"),
        res(SolverReturnCode::Sat, 7000, "c"),
        res(SolverReturnCode::Sat, 9000, "d"),
    ];
    let fused = reduce_result(Quantifier::Forall, 4, layer);
    assert_eq!(fused.len(), 1);
    assert_eq!(fused[0].result, SolverReturnCode::Unsat);
    assert_eq!(fused[0].wall_millis, 5000);
    assert_eq!(fused[0].name, "b");
}

#[test]
fn universal_reduction_of_all_sat_takes_slowest() {
    let layer = vec![
        res(SolverReturnCode::Sat, 3000, "a"),
        res(SolverReturnCode::Sat, 9000, "b"),
    ];
    let fused = reduce_result(Quantifier::Forall, 2, layer);
    assert_eq!(fused[0].result, SolverReturnCode::Sat);
    assert_eq!(fused[0].wall_millis, 9000);
}

#[test]
fn existential_reduction_of_all_unsat_takes_slowest() {
    let layer = vec![
        res(SolverReturnCode::Unsat, 3000, "a"),
        res(SolverReturnCode::Unsat, 9000, "b"),
    ];
    let fused = reduce_result(Quantifier::Exists, 2, layer);
    assert_eq!(fused[0].result, SolverReturnCode::Unsat);
    assert_eq!(fused[0].wall_millis, 9000);
}

#[test]
fn mixed_outcomes_without_certificate_time_out() {
    let layer = vec![
        res(SolverReturnCode::Timeout, 100, "a"),
        res(SolverReturnCode::Unsat, 200, "b"),
    ];
    let fused = reduce_result(Quantifier::Exists, 2, layer);
    assert_eq!(fused[0].result, SolverReturnCode::Timeout);
    assert_eq!(fused[0].wall_millis, 10_000_000_000);
    assert_eq!(fused[0].name, "(no solver)");
}

#[test]
fn reduction_in_layers_of_two() {
    let layer = vec![
        res(SolverReturnCode::Sat, 1000, "a"),
        res(SolverReturnCode::Sat, 2000, "b"),
        res(SolverReturnCode::Unsat, 3000, "c"),
        res(SolverReturnCode::Unsat, 4000, "d"),
    ];
    let fused = reduce_result(Quantifier::Exists, 2, layer);
    assert_eq!(fused.len(), 2);
    assert_eq!(fused[0].result, SolverReturnCode::Sat);
    assert_eq!(fused[0].wall_millis, 1000);
    assert_eq!(fused[1].result, SolverReturnCode::Unsat);
    assert_eq!(fused[1].wall_millis, 4000);
}

#[test]
fn statistics_fold_over_default_splits() {
    let f = parse_qdimacs("p cnf 2 1\ne 1 2 0\n1 2 0\n").unwrap();
    let results = vec![
        res(SolverReturnCode::Sat, 3000, "a"),
        res(SolverReturnCode::Unsat, 5000, "b"),
        res(SolverReturnCode::Sat, 7000, "c"),
        res(SolverReturnCode::Sat, 9000, "d"),
    ];
    let (_, split_count) = f.embedded_splits_round_fitting(2);
    let st = produce_statistics_from_run(&f, &results, split_count, None).unwrap();
    assert_eq!(st.result, SolverReturnCode::Sat);
    assert_eq!(st.minimal_execution_time_millis, 3000);
    assert_eq!(st.summed_execution_time_millis, 24000);
    assert_eq!(st.required_cores, 4);
    assert_eq!(st.naive_split_count, 4);
    assert_eq!(st.non_split_execution_time_millis, 10_000_000_000);
}

#[test]
fn statistics_take_reference_run_time() {
    let f = parse_qdimacs("p cnf 1 1\ne 1 0\n1 0\n").unwrap();
    let results = vec![
        res(SolverReturnCode::Sat, 3000, "a"),
        res(SolverReturnCode::Sat, 4000, "b"),
    ];
    let og = res(SolverReturnCode::Sat, 12000, "og");
    let st = produce_statistics_from_run(&f, &results, 1, Some(og)).unwrap();
    assert_eq!(st.non_split_execution_time_millis, 12000);
    assert_eq!(st.minimal_execution_time_millis, 3000);
}

#[test]
fn statistics_reject_zero_width_split() {
    let f = parse_qdimacs("p cnf 1 1\ne 1 0\nIS 1 > 5 0\n1 0\n").unwrap();
    let results: Vec<SolverResult> = Vec::new();
    assert!(matches!(
        produce_statistics_from_run(&f, &results, 1, None),
        Err(ReduceError::ZeroWidthSplit)
    ));
}

#[test]
fn statistics_reject_wrong_result_count() {
    let f = parse_qdimacs("p cnf 1 1\ne 1 0\n1 0\n").unwrap();
    let results = vec![
        res(SolverReturnCode::Sat, 1000, "a"),
        res(SolverReturnCode::Sat, 2000, "b"),
        res(SolverReturnCode::Sat, 3000, "c"),
        res(SolverReturnCode::Sat, 4000, "d"),
    ];
    assert!(matches!(
        produce_statistics_from_run(&f, &results, 1, None),
        Err(ReduceError::ResultCountMismatch)
    ));
}
