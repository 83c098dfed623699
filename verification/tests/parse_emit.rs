use qdimacs_splitter::{parse_qdimacs, sign, var_constraint_to_nr_of_bits, write_qdimacs, ParseError};

#[test]
fn test_nr_to_bits() {
    assert_eq!(var_constraint_to_nr_of_bits(5), 3);
    assert_eq!(var_constraint_to_nr_of_bits(3), 2);
    assert_eq!(var_constraint_to_nr_of_bits(2), 1);
}

#[test]
fn test_sign() {
    assert_eq!(sign(2), 1);
    assert_eq!(sign(-2), -1);
}

#[test]
fn parse_basic_formula() {
    let f = parse_qdimacs("p cnf 2 1\ne 1 2 0\n1 -2 0\n").unwrap();
    assert_eq!(f.nr_of_variables, 2);
    assert_eq!(f.nr_of_clauses, 1);
    assert_eq!(f.prefix, vec![-1, -2]);
    assert_eq!(f.matrix, vec![vec![1, -2]]);
}

#[test]
fn parse_synthesizes_default_splits() {
    let f = parse_qdimacs("p cnf 2 1\ne 1 2 0\n1 -2 0\n").unwrap();
    assert_eq!(f.splits.len(), 2);
    assert_eq!(f.splits[0].vars, vec![1]);
    assert_eq!(f.splits[1].vars, vec![2]);
    assert_eq!(f.splits[0].constraints.len(), 1);
    assert_eq!(f.splits[0].constraints[0].target, vec![vec![2]]);
}

#[test]
fn parse_skips_comments() {
    let f = parse_qdimacs("c a comment line\np cnf 1 1\nc another\ne 1 0\n1 0\n").unwrap();
    assert_eq!(f.prefix, vec![-1]);
    assert_eq!(f.matrix, vec![vec![1]]);
}

#[test]
fn parse_declared_split_with_vars() {
    let f = parse_qdimacs("p cnf 2 1\ne 1 2 0\nIS 1 2 < 2 0\n1 2 0\n").unwrap();
    assert_eq!(f.splits.len(), 1);
    assert_eq!(f.splits[0].vars, vec![1, 2]);
}

#[test]
fn parse_infers_split_width_from_bound() {
    // a bound of 5 needs 3 bits, claimed from the front of the prefix
    let f = parse_qdimacs("p cnf 3 1\ne 1 2 3 0\nIS < 5 0\n1 0\n").unwrap();
    assert_eq!(f.splits.len(), 1);
    assert_eq!(f.splits[0].vars, vec![1, 2, 3]);
}

#[test]
fn parse_infers_split_width_from_pattern() {
    let f = parse_qdimacs("p cnf 2 1\ne 1 2 0\nIS = 01 10 0\n1 0\n").unwrap();
    assert_eq!(f.splits.len(), 1);
    assert_eq!(f.splits[0].vars, vec![1, 2]);
}

#[test]
fn parse_error_missing_header() {
    assert!(matches!(parse_qdimacs("e 1 0\n1 0\n"), Err(ParseError::MissingHeader)));
    assert!(matches!(parse_qdimacs(""), Err(ParseError::MissingHeader)));
}

#[test]
fn parse_error_duplicate_header() {
    assert!(matches!(parse_qdimacs("p cnf 1 0\np cnf 1 0\n"), Err(ParseError::DuplicateHeader)));
}

#[test]
fn parse_error_bad_header() {
    assert!(matches!(parse_qdimacs("p dnf 1 0\n"), Err(ParseError::BadHeader)));
    assert!(matches!(parse_qdimacs("p cnf 1\n"), Err(ParseError::BadHeader)));
}

#[test]
fn parse_error_unterminated_clause() {
    assert!(matches!(parse_qdimacs("p cnf 1 1\n1"), Err(ParseError::UnterminatedInput)));
}

#[test]
fn parse_error_bad_quant_var() {
    assert!(matches!(parse_qdimacs("p cnf 1 1\ne x 0\n1 0\n"), Err(ParseError::BadQuantVar)));
}

#[test]
fn parse_error_empty_quant_block() {
    assert!(matches!(parse_qdimacs("p cnf 1 1\ne 0\n1 0\n"), Err(ParseError::EmptyQuantBlock)));
}

#[test]
fn parse_error_clause_count_mismatch() {
    assert!(matches!(parse_qdimacs("p cnf 1 2\n1 0\n"), Err(ParseError::ClauseCountMismatch)));
}

#[test]
fn parse_error_literal_out_of_range() {
    assert!(matches!(parse_qdimacs("p cnf 1 1\n2 0\n"), Err(ParseError::LiteralOutOfRange)));
}

#[test]
fn parse_error_split_across_blocks() {
    assert!(matches!(parse_qdimacs("p cnf 2 1\ne 1 0\na 2 0\nIS 1 2 < 3 0\n1 0\n"), Err(ParseError::SplitAcrossBlocks)));
}

#[test]
fn parse_error_split_beyond_prefix() {
    // a bound of 9 needs 4 bits but only 2 prefix variables exist
    assert!(matches!(parse_qdimacs("p cnf 2 1\ne 1 2 0\nIS < 9 0\n1 0\n"), Err(ParseError::SplitBeyondPrefix)));
}

#[test]
fn parse_error_no_constraints() {
    assert!(matches!(parse_qdimacs("p cnf 1 1\ne 1 0\nIS 1 0\n1 0\n"), Err(ParseError::NoConstraints)));
}

#[test]
fn parse_error_bad_comparator() {
    assert!(matches!(parse_qdimacs("p cnf 1 1\ne 1 0\nIS 1 ? 2 0\n1 0\n"), Err(ParseError::BadComparator)));
}

#[test]
fn parse_error_unequal_alternatives() {
    assert!(matches!(parse_qdimacs("p cnf 2 1\ne 1 2 0\nIS 1 2 = 01 100 0\n1 0\n"), Err(ParseError::UnequalAlternatives)));
}

#[test]
fn parse_error_missing_bound() {
    assert!(matches!(parse_qdimacs("p cnf 1 1\ne 1 0\nIS 1 < 0\n1 0\n"), Err(ParseError::MissingBound)));
}

#[test]
fn write_serializes_formula() {
    let f = parse_qdimacs("p cnf 3 2\na 1 2 0\ne 3 0\n1 -3 0\n2 3 0\n").unwrap();
    let s = write_qdimacs(&f);
    assert_eq!(s, "p cnf 3 2\na 1 2 0\ne 3 0\n1 -3 0\n2 3 0\n");
}

#[test]
fn write_parse_round_trip() {
    let input = "p cnf 4 2\ne 1 0\na 2 3 0\ne 4 0\n1 -2 4 0\n-3 -4 0\n";
    let f1 = parse_qdimacs(input).unwrap();
    let s = write_qdimacs(&f1);
    let f2 = parse_qdimacs(&s).unwrap();
    assert_eq!(f1.prefix, f2.prefix);
    assert_eq!(f1.matrix, f2.matrix);
    assert_eq!(f1.nr_of_variables, f2.nr_of_variables);
    assert_eq!(f1.nr_of_clauses, f2.nr_of_clauses);
}

#[test]
fn write_regroups_prefix_blocks() {
    // one line per maximal block, adjacent blocks alternate
    let f = parse_qdimacs("p cnf 4 1\ne 1 0\na 2 3 0\ne 4 0\n1 0\n").unwrap();
    let s = write_qdimacs(&f);
    assert_eq!(s, "p cnf 4 1\ne 1 0\na 2 3 0\ne 4 0\n1 0\n");
}

#[test]
fn write_fuses_adjacent_same_quantifier_blocks() {
    // two existential lines in the input become one serialized block
    let f = parse_qdimacs("p cnf 2 1\ne 1 0\ne 2 0\n1 2 0\n").unwrap();
    let s = write_qdimacs(&f);
    assert_eq!(s, "p cnf 2 1\ne 1 2 0\n1 2 0\n");
}

#[test]
fn write_empty_prefix_has_no_quantifier_lines() {
    let f = parse_qdimacs("p cnf 1 1\n1 0\n").unwrap();
    let s = write_qdimacs(&f);
    assert_eq!(s, "p cnf 1 1\n1 0\n");
}
