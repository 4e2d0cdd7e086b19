//! A verified 9x9 Sudoku solving engine.
//!
//! The engine keeps, for every cell, the set of digits still possible there,
//! eliminates candidates by constraint propagation with cascading, and
//! completes the board by backtracking search.  Every returned solution is
//! proved valid and proved to preserve the given digits, and a `None` answer
//! is proved to mean that the puzzle has no valid completion.

use vstd::prelude::*;

pub mod checker;
pub mod digits;
pub mod grid;
pub mod heuristic;
pub mod laws;
pub mod model;
pub mod propagate;
pub mod solver;
pub mod text;

pub use grid::SudokuCandidates;
pub use heuristic::InsertionCandidate;
pub use propagate::remove_duplicates;
pub use solver::solve_sudoku;
pub use text::{convert_problem_str, sanitize_line};

verus! {

use crate::model::{
    conflict_at, givens_committed, grid_subset, grid_values, grid_wf, has_conflict,
    lemma_subset_of_singleton, matches_givens, propagation_closed, same_unit, solvable, solves,
    valid_values,
};
use crate::solver::{lemma_conflict_unsolvable, lemma_solution_solves_itself};
use crate::text::{chars_of, digits_of, is_digit_char, lemma_digit_char_round_trip};

/// Solves a puzzle given as 81 digit characters (0 = blank) and returns
/// the solved board in the same form; an unsolvable puzzle is returned
/// unchanged.  The returned solution preserves every given, a puzzle that
/// is already a complete valid board comes back identical, and a puzzle
/// with exactly one completion is answered with exactly that completion.
pub fn wasm_solve_sudoku(input_str: &str) -> (res: String)
    requires
        input_str@.len() == 81,
        forall|k: int| 0 <= k < 81 ==> is_digit_char(#[trigger] input_str@[k]),
    ensures
        res@.len() == 81,
        !solvable(digits_of(input_str@)) ==> res@ == input_str@,
        solvable(digits_of(input_str@)) ==> exists|a: Seq<u8>|
            valid_values(a) && #[trigger] matches_givens(a, digits_of(input_str@)) && res@
                == chars_of(a),
        solvable(digits_of(input_str@)) ==> forall|k: int|
            0 <= k < 81 && digits_of(input_str@)[k] != 0 ==> #[trigger] res@[k] == input_str@[k],
        valid_values(digits_of(input_str@)) ==> res@ == input_str@,
        forall|a: Seq<u8>|
            valid_values(a) && #[trigger] matches_givens(a, digits_of(input_str@)) && (forall|
                a2: Seq<u8>,
            |
                valid_values(a2) && #[trigger] matches_givens(a2, digits_of(input_str@)) ==> a2
                    == a) ==> res@ == chars_of(a),
{
    let ghost nums = digits_of(input_str@);
    let numbers = convert_problem_str(input_str);
    let sudoku_problem = SudokuCandidates::from_vec(numbers);
    let ghost problem_snapshot = sudoku_problem;
    let solution_opt = solve_sudoku(sudoku_problem, 0);
    match solution_opt {
        Some(solution) => {
            let res = solution.to_continuous_string();
            proof {
                let prob = problem_snapshot.unwrap();
                let a = grid_values(solution@);
                lemma_solution_solves_itself(solution@);
                assert forall|k: int| 0 <= k < 81 && nums[k] != 0 implies a[k]
                    == #[trigger] nums[k] by {
                    assert(prob@[k] == seq![nums[k]]);
                    assert(solution@[k].contains(a[k]));
                    assert(prob@[k].contains(a[k]));
                }
                assert(matches_givens(a, nums));
                assert(solvable(nums));
                assert forall|k: int| 0 <= k < 81 && nums[k] != 0 implies #[trigger] res@[k]
                    == input_str@[k] by {
                    lemma_digit_char_round_trip(input_str@[k]);
                }
                if valid_values(nums) {
                    assert forall|k: int| 0 <= k < 81 implies a[k] == #[trigger] nums[k] by {
                        assert(nums[k] != 0);
                    }
                    assert(a =~= nums);
                    assert forall|k: int| 0 <= k < 81 implies res@[k]
                        == #[trigger] input_str@[k] by {
                        lemma_digit_char_round_trip(input_str@[k]);
                    }
                    assert(res@ =~= input_str@);
                }
                assert forall|a1: Seq<u8>|
                    valid_values(a1) && #[trigger] matches_givens(a1, nums) && (forall|
                        a2: Seq<u8>,
                    |
                        valid_values(a2) && #[trigger] matches_givens(a2, nums) ==> a2 == a1)
                    implies res@ == chars_of(a1) by {
                    assert(a == a1);
                }
            }
            res
        },
        None => {
            proof {
                assert forall|a: Seq<u8>|
                    !(valid_values(a) && #[trigger] matches_givens(a, nums)) by {
                    if valid_values(a) && matches_givens(a, nums) {
                        if problem_snapshot is Some {
                            assert(solves(a, problem_snapshot.unwrap()@));
                            assert(!solves(a, problem_snapshot.unwrap()@));
                        }
                    }
                }
                assert(!solvable(nums));
            }
            input_str.to_owned()
        },
    }
}

/// Reports whether the givens of the puzzle are already inconsistent,
/// reusing the constructor's contradiction detection: `true` exactly when
/// no well-formed propagation-closed board commits the givens without two
/// solved peers sharing a digit.  That covers duplicates among the givens
/// themselves and conflicts that only constraint propagation of forced
/// singles uncovers; a `true` answer proves the puzzle has no completion.
pub fn wasm_sudoku_contains_conflicts(input_str: &str) -> (res: bool)
    requires
        input_str@.len() == 81,
        forall|k: int| 0 <= k < 81 ==> is_digit_char(#[trigger] input_str@[k]),
    ensures
        res == !(exists|g: Seq<Seq<u8>>|
            grid_wf(g) && propagation_closed(g) && givens_committed(g, digits_of(input_str@))
                && !has_conflict(g)),
        res ==> !solvable(digits_of(input_str@)),
        (exists|j1: int, j2: int|
            0 <= j1 < 81 && 0 <= j2 < 81 && same_unit(j1, j2) && digits_of(input_str@)[j1]
                == digits_of(input_str@)[j2] && digits_of(input_str@)[j1] != 0) ==> res,
{
    let ghost nums = digits_of(input_str@);
    let numbers = convert_problem_str(input_str);
    let sudoku_problem = SudokuCandidates::from_vec(numbers);
    match sudoku_problem {
        Some(prob) => {
            let res = prob.has_unresolvable_conflicts();
            proof {
                if exists|j1: int, j2: int|
                    0 <= j1 < 81 && 0 <= j2 < 81 && same_unit(j1, j2) && nums[j1] == nums[j2]
                        && nums[j1] != 0 {
                    let (j1, j2) = choose|j1: int, j2: int|
                        0 <= j1 < 81 && 0 <= j2 < 81 && same_unit(j1, j2) && nums[j1] == nums[j2]
                            && nums[j1] != 0;
                    assert(prob@[j1] == seq![nums[j1]]);
                    assert(prob@[j2] == seq![nums[j2]]);
                    assert(conflict_at(prob@, j1, j2));
                    assert(has_conflict(prob@));
                }
                if res {
                    lemma_conflict_unsolvable(prob@);
                    assert forall|a: Seq<u8>|
                        !(valid_values(a) && #[trigger] matches_givens(a, nums)) by {
                        if valid_values(a) && matches_givens(a, nums) {
                            assert(solves(a, prob@));
                        }
                    }
                    // A conflict on the constructed board is inherited by
                    // every closed board committing the givens: such a
                    // board refines the constructed one, so the two
                    // conflicting cells stay solved on the same digit.
                    assert forall|g: Seq<Seq<u8>>|
                        !(grid_wf(g) && propagation_closed(g) && #[trigger] givens_committed(
                            g,
                            nums,
                        ) && !has_conflict(g)) by {
                        if grid_wf(g) && propagation_closed(g) && givens_committed(g, nums) {
                            assert(grid_subset(g, prob@));
                            let (i, j) = choose|i: int, j: int| conflict_at(prob@, i, j);
                            let v = prob@[i][0];
                            assert forall|x: u8| g[i].contains(x) implies x == v by {
                                assert(prob@[i].contains(x));
                                assert(prob@[i] =~= seq![v]);
                            }
                            lemma_subset_of_singleton(g[i], v);
                            assert forall|x: u8| g[j].contains(x) implies x == v by {
                                assert(prob@[j].contains(x));
                                assert(prob@[j] =~= seq![v]);
                            }
                            lemma_subset_of_singleton(g[j], v);
                            assert(conflict_at(g, i, j));
                        }
                    }
                } else {
                    // The constructed board itself witnesses a conflict-free
                    // closed board committing the givens.
                    assert(grid_wf(prob@) && propagation_closed(prob@) && givens_committed(
                        prob@,
                        nums,
                    ) && !has_conflict(prob@));
                }
            }
            res
        },
        None => {
            proof {
                assert(!solvable(nums));
                assert forall|g: Seq<Seq<u8>>|
                    !(grid_wf(g) && propagation_closed(g) && #[trigger] givens_committed(g, nums)
                        && !has_conflict(g)) by {}
            }
            true
        },
    }
}

} // verus!
