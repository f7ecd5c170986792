use solver::answer::solver_answer;

#[test]
fn answer_from_last_line() {
    assert_eq!(solver_answer("log line\nSolution: R U F'"), "R U F'");
}

#[test]
fn answer_last_line_takes_second_field_only() {
    assert_eq!(solver_answer("x\nSolution: a: b"), "a");
}

#[test]
fn answer_last_line_without_separator_is_empty() {
    assert_eq!(solver_answer("x\nSolution:"), "");
}

#[test]
fn answer_from_earlier_line_cut_at_stamp() {
    assert_eq!(
        solver_answer("start\nSolution: R2 D 2023-12-01 12:00 done\ntrailing"),
        "R2 D "
    );
}

#[test]
fn answer_prefers_latest_solution_line() {
    assert_eq!(solver_answer("Solution: A\nSolution: B\nend"), "B");
}

#[test]
fn answer_missing_is_empty() {
    assert_eq!(solver_answer("no answer here\n"), "");
}
