use sudoku_solver::{convert_problem_str, solve_sudoku, wasm_solve_sudoku,
    wasm_sudoku_contains_conflicts, SudokuCandidates};

#[test]
fn test_has_no_conflicts_js_interface() {
    assert!(!wasm_sudoku_contains_conflicts(
        "006037508700010900130050020002908000050020430600000090200005704003100060498600000"
    ));
}

#[test]
fn test_has_conflicts_js_interface() {
    assert!(wasm_sudoku_contains_conflicts(
        "066037508700010900130050020002908000050020430600000090200005704003100060498600000"
    ));
}

#[test]
fn test_solve_js_interface() {
    assert_eq!(
        wasm_solve_sudoku(
            "006037508700010900130050020002908000050020430600000090200005704003100060498600000"
        ),
        "926437518785216943134859627342968175859721436617543892261395784573184269498672351"
    );
}

#[test]
fn test_unsolvable_solve_js_interface() {
    assert_eq!(
        wasm_solve_sudoku(
            "066037508700010900130050020002908000050020430600000090200005704003100060498600000"
        ),
        "066037508700010900130050020002908000050020430600000090200005704003100060498600000"
    );
}

#[test]
fn test_trivial_problem_is_solvable() {
    let sudoku_vec = convert_problem_str(
        "000000000000000000000000000000000000000000000000000000000000000000000000000000000",
    );
    assert!(solve_sudoku(SudokuCandidates::from_vec(sudoku_vec), 0).is_some());
}

#[test]
fn test_trivial_wrong_problem_is_unsolvable() {
    let sudoku_vec = convert_problem_str(
        "110000000000000000000000000000000000000000000000000000000000000000000000000000000",
    );
    let sol_opt = solve_sudoku(SudokuCandidates::from_vec(sudoku_vec), 0);
    assert!(sol_opt.is_none());
}
