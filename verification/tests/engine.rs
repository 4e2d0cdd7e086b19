use sudoku_solver::{convert_problem_str, sanitize_line, wasm_solve_sudoku,
    wasm_sudoku_contains_conflicts, SudokuCandidates};

fn digits(s: &str) -> Vec<u8> {
    s.bytes().map(|b| b - b'0').collect()
}

fn unit_has_each_digit_once(vals: &[u8]) -> bool {
    let mut counts = [0usize; 10];
    for v in vals {
        counts[*v as usize] += 1;
    }
    (1..10).all(|d| counts[d] == 1)
}

fn is_valid_solution(s: &str) -> bool {
    let g = digits(s);
    if g.len() != 81 {
        return false;
    }
    for r in 0..9 {
        let row: Vec<u8> = (0..9).map(|c| g[r * 9 + c]).collect();
        if !unit_has_each_digit_once(&row) {
            return false;
        }
    }
    for c in 0..9 {
        let col: Vec<u8> = (0..9).map(|r| g[r * 9 + c]).collect();
        if !unit_has_each_digit_once(&col) {
            return false;
        }
    }
    for b in 0..9 {
        let boxv: Vec<u8> = (0..9)
            .map(|t| g[((b / 3) * 3 + t / 3) * 9 + (b % 3) * 3 + t % 3])
            .collect();
        if !unit_has_each_digit_once(&boxv) {
            return false;
        }
    }
    true
}

#[test]
fn test_solution_units_each_digit_once() {
    let input = "015040002020560098300010007200000600940001000030680704458000000090872050600430900";
    let solution = wasm_solve_sudoku(input);
    assert!(is_valid_solution(&solution));
}

#[test]
fn test_givens_preserved_in_solution() {
    let input = "270600050000070406006059030040005600081000040029006173390000002000097800807140005";
    let solution = wasm_solve_sudoku(input);
    let given = digits(input);
    let solved = digits(&solution);
    assert_eq!(solved.len(), 81);
    for k in 0..81 {
        if given[k] != 0 {
            assert_eq!(solved[k], given[k]);
        }
    }
}

#[test]
fn test_solved_grid_is_returned_unchanged() {
    let solved = "926437518785216943134859627342968175859721436617543892261395784573184269498672351";
    assert_eq!(wasm_solve_sudoku(solved), solved);
}

#[test]
fn test_repeated_invocations_agree() {
    let input = "006030010300605000070029000020300984794000300000001005530008200069047000041200590";
    let first = wasm_solve_sudoku(input);
    let second = wasm_solve_sudoku(input);
    assert_eq!(first, second);
}

#[test]
fn test_all_blank_solution_is_valid() {
    let blank = "000000000000000000000000000000000000000000000000000000000000000000000000000000000";
    let solution = wasm_solve_sudoku(blank);
    assert!(is_valid_solution(&solution));
}

#[test]
fn test_column_duplicate_reports_conflict() {
    // Two 4s in column 0 (rows 0 and 3).
    let input = "400000000000000000000000000400000000000000000000000000000000000000000000000000000";
    assert!(wasm_sudoku_contains_conflicts(input));
}

#[test]
fn test_box_duplicate_reports_conflict() {
    // Two 7s in the top-left box, on different rows and columns.
    let input = "700000000000000000007000000000000000000000000000000000000000000000000000000000000";
    assert!(wasm_sudoku_contains_conflicts(input));
}

#[test]
fn test_row_duplicate_yields_unsolvable_unchanged() {
    // Two 5s in row 0: reported as a conflict, and the solver hands the
    // input back rather than a partial board.
    let input = "550000000000000000000000000000000000000000000000000000000000000000000000000000000";
    assert!(wasm_sudoku_contains_conflicts(input));
    assert_eq!(wasm_solve_sudoku(input), input);
}

#[test]
fn test_from_vec_propagates_givens() {
    let v = convert_problem_str(
        "500000000000000000000000000000000000000000000000000000000000000000000000000000000",
    );
    let grid = SudokuCandidates::from_vec(v).expect("no conflicts in a single given");
    // The given cell is committed.
    assert_eq!(grid.dom_len(0), 1);
    assert_eq!(grid.dom_get(0, 0), 5);
    // A row peer lost the digit 5.
    assert_eq!(grid.dom_len(1), 8);
    // The centre cell shares no unit with the given and keeps all digits.
    assert_eq!(grid.dom_len(40), 9);
}

#[test]
fn test_from_vec_rejects_contradictory_givens() {
    let v = convert_problem_str(
        "330000000000000000000000000000000000000000000000000000000000000000000000000000000",
    );
    assert!(SudokuCandidates::from_vec(v).is_none());
}

#[test]
fn test_heuristic_prefers_naked_single() {
    // The four 5s leave the top-left box with exactly one cell that can
    // still hold a 5, so the heuristic must deduce (0, 0) = 5 rather than
    // guess among the nine candidates of an open cell.
    let mut v = vec![0u8; 81];
    v[1 * 9 + 3] = 5;
    v[2 * 9 + 6] = 5;
    v[4 * 9 + 1] = 5;
    v[7 * 9 + 2] = 5;
    let grid = SudokuCandidates::from_vec(v).expect("no conflicts");
    let ic = grid
        .get_best_place_and_number_to_insert()
        .expect("board is not complete");
    assert_eq!(ic.row_idx, 0);
    assert_eq!(ic.col_idx, 0);
    assert_eq!(ic.candidates, vec![5]);
}

#[test]
fn test_heuristic_minimum_remaining_values() {
    // A blank board has no naked single, so the heuristic falls back to
    // the first open cell of minimum domain size: cell (0, 0) with all
    // nine digits, in ascending order.
    let grid = SudokuCandidates::from_vec(vec![0u8; 81]).expect("blank board");
    let ic = grid
        .get_best_place_and_number_to_insert()
        .expect("board is not complete");
    assert_eq!(ic.row_idx, 0);
    assert_eq!(ic.col_idx, 0);
    assert_eq!(ic.candidates, vec![1, 2, 3, 4, 5, 6, 7, 8, 9]);
}

#[test]
fn test_sanitize_line_drops_commas_and_blanks_other_text() {
    assert_eq!(sanitize_line("1,2,x"), vec![1, 2, 0]);
    assert_eq!(sanitize_line("9.0_3"), vec![9, 0, 0, 0, 3]);
    assert_eq!(sanitize_line(""), Vec::<u8>::new());
}

#[test]
fn test_convert_problem_str_reads_digits() {
    assert_eq!(convert_problem_str("0159"), vec![0, 1, 5, 9]);
    assert_eq!(convert_problem_str(""), Vec::<u8>::new());
}

#[test]
fn test_sanitized_line_feeds_the_solver() {
    // The per-line path of puzzle-file parsing: commas vanish, dots become
    // blanks, and the cleaned digits solve to the known solution.
    let line = "006037508,7000109..,130050020,002908000,050020430,600000090,200005704,003100060,498600000";
    let cleaned = sanitize_line(line);
    assert_eq!(cleaned.len(), 81);
    let grid = SudokuCandidates::from_vec(cleaned).expect("consistent givens");
    let solved = sudoku_solver::solve_sudoku(Some(grid), 0).expect("solvable");
    assert_eq!(
        solved.to_continuous_string(),
        "926437518785216943134859627342968175859721436617543892261395784573184269498672351"
    );
}

#[test]
fn test_propagated_conflict_without_literal_duplicate() {
    // No two identical givens share a unit, yet the cell in the top-right
    // corner loses 1..=6 to its row and 7..=9 to its column: only
    // propagation uncovers the contradiction.
    let input = "123456000000000000000000000000000007000000008000000009000000000000000000000000000";
    assert!(wasm_sudoku_contains_conflicts(input));
    assert_eq!(wasm_solve_sudoku(input), input);
}
