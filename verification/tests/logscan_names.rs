use qdimacs_splitter::{extract_result_from_log, log_file_name, split_file_name, SolverReturnCode};

#[test]
fn log_with_sat_exit_and_time() {
    let log = "[runlim] version 1\nCommand exited with non-zero status 10\n[runlim] real: 1.5\n";
    let r = extract_result_from_log(log, "run");
    assert_eq!(r.result, SolverReturnCode::Sat);
    assert_eq!(r.wall_millis, 1500);
    assert_eq!(r.name, "run");
}

#[test]
fn log_with_unsat_exit() {
    let log = "Command exited with non-zero status 20\n[runlim] real: 5\n";
    let r = extract_result_from_log(log, "x");
    assert_eq!(r.result, SolverReturnCode::Unsat);
    assert_eq!(r.wall_millis, 5000);
}

#[test]
fn log_with_other_exit_is_timeout() {
    let log = "Command exited with non-zero status 7\n";
    let r = extract_result_from_log(log, "x");
    assert_eq!(r.result, SolverReturnCode::Timeout);
    assert_eq!(r.wall_millis, 0);
}

#[test]
fn log_without_matches_is_timeout_zero() {
    let r = extract_result_from_log("nothing to see\nat all\n", "x");
    assert_eq!(r.result, SolverReturnCode::Timeout);
    assert_eq!(r.wall_millis, 0);
}

#[test]
fn log_integer_wall_time_is_accepted() {
    let r = extract_result_from_log("[runlim] real: 3\n", "x");
    assert_eq!(r.wall_millis, 3000);
}

#[test]
fn log_fractional_time_truncates_beyond_millis() {
    let r = extract_result_from_log("[runlim] real: 0.1239\n", "x");
    assert_eq!(r.wall_millis, 123);
    let r2 = extract_result_from_log("[runlim] real: 2.75\n", "x");
    assert_eq!(r2.wall_millis, 2750);
}

#[test]
fn log_later_matches_overwrite_earlier() {
    let log = "Command exited with non-zero status 10\n[runlim] real: 1\nCommand exited with non-zero status 20\n[runlim] real: 2\n";
    let r = extract_result_from_log(log, "x");
    assert_eq!(r.result, SolverReturnCode::Unsat);
    assert_eq!(r.wall_millis, 2000);
}

#[test]
fn log_time_probe_is_anchored_at_line_start() {
    // the time probe must begin the line, so an indented copy is ignored
    let r = extract_result_from_log("note [runlim] real: 9\n", "x");
    assert_eq!(r.wall_millis, 0);
}

#[test]
fn log_exit_probe_matches_anywhere_in_line() {
    let r = extract_result_from_log("xx Command exited with non-zero status 10 yy\n", "x");
    assert_eq!(r.result, SolverReturnCode::Sat);
}

#[test]
fn log_exit_code_with_leading_zero_is_timeout() {
    // the captured digits are compared literally, so 010 is not 10
    let r = extract_result_from_log("Command exited with non-zero status 010\n", "x");
    assert_eq!(r.result, SolverReturnCode::Timeout);
}

#[test]
fn subformula_file_name_convention() {
    assert_eq!(split_file_name(3, "formula.qdimacs"), "3:formula.qdimacs");
    assert_eq!(split_file_name(0, "b"), "0:b");
}

#[test]
fn log_file_name_convention() {
    assert_eq!(
        log_file_name("run", 3, "formula.qdimacs"),
        "run-3:formula.qdimacs.log"
    );
}
