//! Global facts about solved boards, stated once over the model so that
//! callers of the engine can rely on them directly.

use vstd::prelude::*;

use crate::digits::{
    box_vals, col_vals, count_eq, lemma_box_digits, lemma_col_digits, lemma_row_digits, row_vals,
    seq_sum,
};
use crate::model::{grid_values, is_solution, valid_values};
use crate::solver::lemma_solution_solves_itself;

verus! {

/// Every board the engine returns as a solution carries each digit 1..=9
/// exactly once in every row, every column, and every box, and each of
/// those units therefore sums to 45.
pub proof fn lemma_solution_exactly_once(g: Seq<Seq<u8>>)
    requires
        is_solution(g),
    ensures
        valid_values(grid_values(g)),
        forall|r: int, d: u8|
            0 <= r < 9 && 1 <= d <= 9 ==> #[trigger] count_eq(row_vals(grid_values(g), r), d) == 1,
        forall|c: int, d: u8|
            0 <= c < 9 && 1 <= d <= 9 ==> #[trigger] count_eq(col_vals(grid_values(g), c), d) == 1,
        forall|b: int, d: u8|
            0 <= b < 9 && 1 <= d <= 9 ==> #[trigger] count_eq(box_vals(grid_values(g), b), d) == 1,
        forall|r: int| 0 <= r < 9 ==> seq_sum(#[trigger] row_vals(grid_values(g), r)) == 45,
        forall|c: int| 0 <= c < 9 ==> seq_sum(#[trigger] col_vals(grid_values(g), c)) == 45,
        forall|b: int| 0 <= b < 9 ==> seq_sum(#[trigger] box_vals(grid_values(g), b)) == 45,
{
    lemma_solution_solves_itself(g);
    let a = grid_values(g);
    assert forall|r: int| 0 <= r < 9 implies seq_sum(#[trigger] row_vals(a, r)) == 45 by {
        lemma_row_digits(a, r);
    }
    assert forall|c: int| 0 <= c < 9 implies seq_sum(#[trigger] col_vals(a, c)) == 45 by {
        lemma_col_digits(a, c);
    }
    assert forall|b: int| 0 <= b < 9 implies seq_sum(#[trigger] box_vals(a, b)) == 45 by {
        lemma_box_digits(a, b);
    }
    assert forall|r: int, d: u8|
        0 <= r < 9 && 1 <= d <= 9 implies #[trigger] count_eq(row_vals(a, r), d) == 1 by {
        lemma_row_digits(a, r);
    }
    assert forall|c: int, d: u8|
        0 <= c < 9 && 1 <= d <= 9 implies #[trigger] count_eq(col_vals(a, c), d) == 1 by {
        lemma_col_digits(a, c);
    }
    assert forall|b: int, d: u8|
        0 <= b < 9 && 1 <= d <= 9 implies #[trigger] count_eq(box_vals(a, b), d) == 1 by {
        lemma_box_digits(a, b);
    }
}

} // verus!
