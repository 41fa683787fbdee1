use sudoku_sat::interpreter::{place_assignments, postprocess, prettify, round_of, solve};

fn v(items: &[&str]) -> Vec<String> {
    items.iter().map(|s| s.to_string()).collect()
}

fn caps(items: &[(&str, &str, &str)]) -> Vec<(String, String, String)> {
    items.iter().map(|(a, b, c)| (a.to_string(), b.to_string(), c.to_string())).collect()
}

const ANSWER_FOUR: &str = "% SATISFIABLE formula\na1_2 = 1\na2_1 = 1\nb1_3 = 0\nc4_4 = 1\n";

#[test]
fn solve_reports_an_unsatisfiable_puzzle() {
    let round = solve("% UNSATISFIABLE formula", 0, 9).unwrap();
    assert!(!round.found);
    assert_eq!(round.lines, v(&["Sudoku is unsatisfiable."]));
    assert_eq!(round.exclusion, None);
}

#[test]
fn solve_reports_a_unique_solution() {
    let round = solve("% UNSATISFIABLE formula", 1, 9).unwrap();
    assert!(!round.found);
    assert_eq!(round.lines, v(&["Sudoku is uniquely solvable. No further solutions exist."]));
}

#[test]
fn solve_reports_the_number_of_solutions() {
    let round = solve("% UNSATISFIABLE formula", 5, 9).unwrap();
    assert_eq!(round.lines, v(&["No further solutions exist. Total number of solutions: 5"]));
    let round = solve("UNSATISFIABLE formula", 12, 0).unwrap();
    assert_eq!(round.lines, v(&["No further solutions exist. Total number of solutions: 12"]));
}

#[test]
fn solve_shows_a_solution_of_order_one() {
    let round = solve("% SATISFIABLE formula\na1_1 = 1\n", 0, 1).unwrap();
    assert!(round.found);
    assert_eq!(round.lines, v(&["Solution #1:", "", "     -", "   | 1", ""]));
    assert_eq!(round.exclusion, Some(" & !(a1_1)".to_string()));
}

#[test]
fn solve_shows_a_solution_of_order_four() {
    let round = solve(ANSWER_FOUR, 2, 4).unwrap();
    assert!(round.found);
    assert_eq!(
        round.lines,
        v(&[
            "Solution #3:",
            "",
            "     --- | ---",
            "   | 2 1   . .",
            "   | . .   . .",
            "   -",
            "   | . .   . 4",
            "   | . .   . .",
            "",
        ])
    );
    assert_eq!(round.exclusion, Some(" & !(a1_2 & a2_1 & c4_4)".to_string()));
}

#[test]
fn solve_fails_on_an_assignment_outside_the_grid() {
    assert!(solve("z1_1 = 1", 0, 4).is_none());
    assert!(solve("a0_1 = 1", 0, 4).is_none());
    assert!(solve("d5_1 = 1", 0, 4).is_none());
}

#[test]
fn a_column_beyond_the_row_runs_into_the_next_row() {
    let lines = postprocess("a9_1 = 1", 4).unwrap();
    assert_eq!(lines[5], "   | 1 .   . .");
}

#[test]
fn solve_reads_the_column_as_a_number() {
    let round = solve("a01_1 = 1", 0, 1).unwrap();
    assert_eq!(round.exclusion, Some(" & !(a1_1)".to_string()));
}

#[test]
fn solve_with_no_assignment_shows_an_empty_grid() {
    let round = solve("% SATISFIABLE formula\n", 0, 1).unwrap();
    assert_eq!(round.lines, v(&["Solution #1:", "", "     -", "   | .", ""]));
    assert_eq!(round.exclusion, Some(" & !()".to_string()));
}

#[test]
fn postprocess_shows_the_grid() {
    let lines = postprocess(ANSWER_FOUR, 4).unwrap();
    assert_eq!(lines.len(), 8);
    assert_eq!(lines[2], "   | 2 1   . .");
    assert!(postprocess("b5_1 = 1", 1).is_none());
}

#[test]
fn place_assignments_writes_values_and_atoms() {
    let (grid, atoms) = place_assignments(&caps(&[("b", "2", "3"), ("a", "+1", "7")]), 2);
    assert_eq!(grid, v(&["7", ".", ".", "3"]));
    assert_eq!(atoms, v(&["b2_3", "a1_7"]));
}

#[test]
fn prettify_pads_narrow_values_for_two_digit_orders() {
    let mut solution = vec![".".to_string(); 100];
    solution[0] = "10".to_string();
    solution[11] = "7".to_string();
    let lines = prettify(&solution, 10);
    assert_eq!(lines.len(), 16);
    assert_eq!(lines[1], "     -------- | -------- | --------");
    assert_eq!(lines[2], "   | 10  .  .    .  .  .    .  .  .    .");
    assert_eq!(lines[3], "   |  .  7  .    .  .  .    .  .  .    .");
    assert_eq!(lines[5], "   -");
    assert_eq!(lines[15], "");
}

#[test]
fn prettify_counts_wide_characters_by_bytes() {
    let solution = v(&["é"]);
    assert_eq!(prettify(&solution, 1), v(&["", "     -", "   |  é", ""]));
}

#[test]
fn a_grid_of_order_zero_is_empty() {
    let round = solve("% SATISFIABLE formula\n", 0, 0).unwrap();
    assert_eq!(round.lines, v(&["Solution #1:", "", "     ", ""]));
    assert!(solve("a1_1 = 1", 0, 0).is_none());
}

#[test]
fn round_of_given_assignments() {
    let round = round_of(&caps(&[("a", "1", "2"), ("a", "2", "1"), ("c", "4", "4")]), 2, 4).unwrap();
    assert!(round.found);
    assert_eq!(
        round.lines,
        v(&[
            "Solution #3:",
            "",
            "     --- | ---",
            "   | 2 1   . .",
            "   | . .   . .",
            "   -",
            "   | . .   . 4",
            "   | . .   . .",
            "",
        ])
    );
    assert_eq!(round.exclusion, Some(" & !(a1_2 & a2_1 & c4_4)".to_string()));
    assert!(round_of(&caps(&[("e", "1", "1")]), 0, 4).is_none());
    assert!(round_of(&caps(&[("a", "0", "1")]), 0, 4).is_none());
}
