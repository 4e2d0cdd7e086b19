//! The backtracking search: commit a candidate, propagate, recurse, and
//! fall back to the next candidate when a branch dies.  A returned board is
//! a valid solution that refines the input board; `None` means the input
//! board has no completion at all.

use vstd::prelude::*;

use crate::grid::SudokuCandidates;
use crate::heuristic::covers_solutions;
use crate::model::{
    cell_at, conflict_at, dom_wf, grid_complete, grid_subset, grid_values, has_conflict,
    is_solution, lemma_cell_at, lemma_count_from_lt, lemma_count_from_nonneg, solves, total_count,
};

verus! {

/// Termination measure of the search: the candidates left on the board.
pub open spec fn search_measure(problem_opt: Option<SudokuCandidates>) -> int {
    match problem_opt {
        Some(p) => total_count(p@),
        None => 0,
    }
}

/// A complete conflict-free board is solved by its own digits.
pub proof fn lemma_solution_solves_itself(g: Seq<Seq<u8>>)
    requires
        is_solution(g),
    ensures
        solves(grid_values(g), g),
{
    let a = grid_values(g);
    assert forall|i: int, j: int|
        0 <= i < 81 && 0 <= j < 81 && crate::model::same_unit(i, j) implies a[i] != a[j] by {
        if a[i] == a[j] {
            assert(conflict_at(g, i, j));
        }
    }
    assert forall|i: int| 0 <= i < 81 implies (#[trigger] g[i]).contains(a[i]) by {
        assert(g[i][0] == a[i]);
    }
}

/// A board with two solved peers on the same digit has no completion.
pub proof fn lemma_conflict_unsolvable(g: Seq<Seq<u8>>)
    requires
        has_conflict(g),
    ensures
        forall|a: Seq<u8>| !solves(a, g),
{
    let (i, j) = choose|i: int, j: int| conflict_at(g, i, j);
    assert forall|a: Seq<u8>| !solves(a, g) by {
        if solves(a, g) {
            assert(g[i].contains(a[i]));
            assert(g[j].contains(a[j]));
            assert(a[i] == g[i][0]);
            assert(a[j] == g[j][0]);
        }
    }
}

/// Solves the board by propagation and depth-first backtracking.  The
/// `recursion_depth` argument is a caller-side diagnostic counter and
/// does not influence the search.
pub fn solve_sudoku(problem_opt: Option<SudokuCandidates>, recursion_depth: usize) -> (res: Option<
    SudokuCandidates,
>)
    requires
        match problem_opt {
            Some(p) => p.wf(),
            None => true,
        },
    ensures
        match res {
            Some(sol) => {
                &&& is_solution(sol@)
                &&& problem_opt is Some
                &&& grid_subset(sol@, problem_opt.unwrap()@)
            },
            None => match problem_opt {
                Some(p) => forall|a: Seq<u8>| !solves(a, p@),
                None => true,
            },
        },
    decreases search_measure(problem_opt),
{
    let problem = match problem_opt {
        Some(p) => p,
        None => {
            return None;
        },
    };
    if problem.is_correct() {
        return Some(problem);
    }
    if problem.has_unresolvable_conflicts() {
        proof {
            lemma_conflict_unsolvable(problem@);
        }
        return None;
    }
    let insertion_cand_opt = problem.get_best_place_and_number_to_insert();
    let insertion_candidate = match insertion_cand_opt {
        Some(ic) => ic,
        None => {
            // Unreachable: a complete conflict-free board is correct.
            proof {
                assert(grid_complete(problem@));
            }
            return None;
        },
    };
    let row_idx = insertion_candidate.row_idx;
    let col_idx = insertion_candidate.col_idx;
    let ghost idx = cell_at(row_idx as int, col_idx as int);
    proof {
        lemma_cell_at(row_idx as int, col_idx as int);
    }
    let cell = row_idx * 9 + col_idx;
    let mut t: usize = 0;
    while t < insertion_candidate.candidates.len()
        invariant
            problem_opt == Some(problem),
            problem.wf(),
            row_idx < 9,
            col_idx < 9,
            idx == cell_at(row_idx as int, col_idx as int),
            0 <= idx < 81,
            cell == idx,
            row_idx == insertion_candidate.row_idx,
            col_idx == insertion_candidate.col_idx,
            problem@[idx].len() >= 2,
            forall|u: int|
                0 <= u < insertion_candidate.candidates@.len() ==> problem@[idx].contains(
                    #[trigger] insertion_candidate.candidates@[u],
                ),
            covers_solutions(insertion_candidate, problem@),
            t <= insertion_candidate.candidates@.len(),
            forall|a: Seq<u8>| #[trigger] solves(a, problem@)
                ==> !insertion_candidate.candidates@.take(t as int).contains(a[idx]),
        decreases insertion_candidate.candidates@.len() - t,
    {
        let el = insertion_candidate.candidates[t];
        let mut problem_bkp = problem.clone();
        problem_bkp.set_cell(cell, el);
        proof {
            assert(problem@[idx].contains(el));
            assert(1 <= el <= 9) by {
                let j = choose|j: int| 0 <= j < problem@[idx].len() && problem@[idx][j] == el;
            }
            assert(problem_bkp.wf()) by {
                assert forall|i: int| 0 <= i < 81 implies dom_wf(#[trigger] problem_bkp@[i]) by {
                    if i != idx {
                        assert(problem_bkp@[i] == problem@[i]);
                    } else {
                        assert(problem_bkp@[i] =~= seq![el]);
                    }
                }
            }
            assert(problem_bkp@[idx] == seq![el]);
        }
        let ghost committed = problem_bkp@;
        let prob_tmp = crate::propagate::remove_duplicates(&problem_bkp, row_idx, col_idx, el);
        // Any completion of the board that places `el` here also completes
        // the committed board.
        proof {
            assert forall|a: Seq<u8>|
                #[trigger] solves(a, problem@) && a[idx] == el implies solves(a, committed) by {
                assert forall|i: int| 0 <= i < 81 implies (#[trigger] committed[i]).contains(
                    a[i],
                ) by {
                    if i != idx {
                        assert(committed[i] == problem@[i]);
                    } else {
                        assert(committed[i][0] == el);
                    }
                }
            }
        }
        match prob_tmp {
            Some(next) => {
                proof {
                    // The branch board has strictly fewer candidates than
                    // the current board: the chosen cell lost at least one.
                    assert forall|i: int| 0 <= i < 81 implies (#[trigger] next@[i]).len()
                        <= problem@[i].len() by {
                        if i != idx {
                            assert(committed[i] == problem@[i]);
                        }
                    }
                    assert(next@[idx].len() <= 1);
                    lemma_count_from_lt(problem@, next@, 0, idx);
                    lemma_count_from_nonneg(problem@, 0);
                    lemma_count_from_nonneg(next@, 0);
                }
                let deeper = solve_sudoku(Some(next), recursion_depth);
                match deeper {
                    Some(sol) => {
                        proof {
                            // The solution refines the branch board, which
                            // refines the current board.
                            assert forall|i: int, d: u8|
                                0 <= i < 81 && #[trigger] sol@[i].contains(d) implies problem@[
                            i].contains(d) by {
                                assert(next@[i].contains(d));
                                assert(committed[i].contains(d));
                                if i != idx {
                                    assert(committed[i] == problem@[i]);
                                } else {
                                    assert(d == el);
                                }
                            }
                        }
                        return Some(sol);
                    },
                    None => {
                        proof {
                            // The branch died, so no completion places `el`
                            // at the chosen cell.
                            assert forall|a: Seq<u8>| #[trigger] solves(a, problem@)
                                implies !insertion_candidate.candidates@.take(
                                t + 1,
                            ).contains(a[idx]) by {
                                if insertion_candidate.candidates@.take(t + 1).contains(a[idx]) {
                                    if a[idx] == el {
                                        assert(solves(a, committed));
                                        assert(solves(a, next@));
                                    } else {
                                        let part = insertion_candidate.candidates@.take(t + 1);
                                        let u = choose|u: int|
                                            0 <= u < part.len() && part[u] == a[idx];
                                        assert(insertion_candidate.candidates@.take(
                                            t as int,
                                        )[u] == a[idx]);
                                    }
                                }
                            }
                        }
                    },
                }
            },
            None => {
                proof {
                    assert forall|a: Seq<u8>| #[trigger] solves(a, problem@)
                        implies !insertion_candidate.candidates@.take(t + 1).contains(
                        a[idx],
                    ) by {
                        if insertion_candidate.candidates@.take(t + 1).contains(a[idx]) {
                            if a[idx] == el {
                                assert(solves(a, committed));
                            } else {
                                let part = insertion_candidate.candidates@.take(t + 1);
                                let u = choose|u: int| 0 <= u < part.len() && part[u] == a[idx];
                                assert(insertion_candidate.candidates@.take(t as int)[u] == a[
                                idx]);
                            }
                        }
                    }
                }
            },
        }
        t = t + 1;
    }
    proof {
        // Every candidate was tried and failed, and the candidate list
        // covers every completion: the board is unsolvable.
        assert forall|a: Seq<u8>| !solves(a, problem@) by {
            if solves(a, problem@) {
                assert(insertion_candidate.candidates@.contains(a[idx]));
                assert(insertion_candidate.candidates@.take(
                    insertion_candidate.candidates@.len() as int,
                ) =~= insertion_candidate.candidates@);
            }
        }
    }
    None
}

} // verus!
