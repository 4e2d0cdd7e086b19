//! Cell selection: find a digit that is forced by its row, column, or box
//! (a naked single), and otherwise branch on an open cell with as few
//! candidates as possible (minimum remaining values).

use vstd::prelude::*;

use crate::digits::{lemma_box_digits, lemma_col_digits, lemma_row_digits};
use crate::grid::SudokuCandidates;
use crate::model::{
    box_cell, box_of, cell_at, col_of, grid_complete, lemma_box_cell, lemma_box_cell_inverse,
    lemma_cell_at, lemma_dom_len_bound, row_of, solves,
};

verus! {

/// No other cell of the row of `i` still allows `el`.
pub open spec fn sole_in_row(g: Seq<Seq<u8>>, i: int, el: u8) -> bool {
    forall|c2: int|
        0 <= c2 < 9 && cell_at(row_of(i), c2) != i ==> !(#[trigger] g[cell_at(
            row_of(i),
            c2,
        )]).contains(el)
}

/// No other cell of the column of `i` still allows `el`.
pub open spec fn sole_in_col(g: Seq<Seq<u8>>, i: int, el: u8) -> bool {
    forall|r2: int|
        0 <= r2 < 9 && cell_at(r2, col_of(i)) != i ==> !(#[trigger] g[cell_at(
            r2,
            col_of(i),
        )]).contains(el)
}

/// No other cell of the box of `i` still allows `el`.
pub open spec fn sole_in_box(g: Seq<Seq<u8>>, i: int, el: u8) -> bool {
    forall|t: int|
        0 <= t < 9 && box_cell(box_of(i), t) != i ==> !(#[trigger] g[box_cell(
            box_of(i),
            t,
        )]).contains(el)
}

/// Digit `el` can only go into cell `i` within one of its units, so every
/// completion of the board must place it there.
pub open spec fn naked_single_at(g: Seq<Seq<u8>>, i: int, el: u8) -> bool {
    sole_in_row(g, i, el) || sole_in_col(g, i, el) || sole_in_box(g, i, el)
}

/// Cell `i` is open and one of its remaining digits is forced there: the
/// deduction the heuristic prefers over any guess.
pub open spec fn candidate_single(g: Seq<Seq<u8>>, i: int, el: u8) -> bool {
    &&& g[i].len() != 1
    &&& g[i].contains(el)
    &&& naked_single_at(g, i, el)
}

/// A chosen open cell together with the digits worth trying there, in
/// ascending order; produced by the heuristic, consumed by the search.
pub struct InsertionCandidate {
    pub row_idx: usize,
    pub col_idx: usize,
    pub candidates: Vec<u8>,
}

/// Every completion that the board still allows picks its digit for the
/// chosen cell from the candidate list.
pub open spec fn covers_solutions(ic: InsertionCandidate, g: Seq<Seq<u8>>) -> bool {
    forall|a: Seq<u8>| #[trigger] solves(a, g) ==> ic.candidates@.contains(
        a[cell_at(ic.row_idx as int, ic.col_idx as int)],
    )
}

/// Whether no cell of the column except `(row_idx, col_idx)` still allows `el`.
pub fn is_single_element_in_col(
    problem: &SudokuCandidates,
    row_idx: usize,
    col_idx: usize,
    el: u8,
) -> (res: bool)
    requires
        problem.wf(),
        row_idx < 9,
        col_idx < 9,
    ensures
        res == sole_in_col(problem@, cell_at(row_idx as int, col_idx as int), el),
{
    proof {
        lemma_cell_at(row_idx as int, col_idx as int);
    }
    let mut row_inner_idx: usize = 0;
    while row_inner_idx < 9
        invariant
            problem.wf(),
            row_idx < 9,
            col_idx < 9,
            row_inner_idx <= 9,
            col_of(cell_at(row_idx as int, col_idx as int)) == col_idx,
            row_of(cell_at(row_idx as int, col_idx as int)) == row_idx,
            forall|r2: int|
                0 <= r2 < row_inner_idx && r2 != row_idx ==> !(#[trigger] problem@[cell_at(
                    r2,
                    col_idx as int,
                )]).contains(el),
        decreases 9 - row_inner_idx,
    {
        if row_inner_idx != row_idx {
            proof {
                lemma_cell_at(row_inner_idx as int, col_idx as int);
            }
            if problem.dom_contains(row_inner_idx * 9 + col_idx, el) {
                proof {
                    let i = cell_at(row_idx as int, col_idx as int);
                    assert(cell_at(row_inner_idx as int, col_idx as int) != i);
                }
                return false;
            }
        }
        row_inner_idx = row_inner_idx + 1;
    }
    proof {
        let i = cell_at(row_idx as int, col_idx as int);
        assert forall|r2: int| 0 <= r2 < 9 && cell_at(r2, col_of(i)) != i implies !(
        #[trigger] problem@[cell_at(r2, col_of(i))]).contains(el) by {
            assert(r2 != row_idx);
        }
    }
    true
}

/// Whether no cell of the row except `(row_idx, col_idx)` still allows `el`.
pub fn is_single_element_in_row(
    problem: &SudokuCandidates,
    row_idx: usize,
    col_idx: usize,
    el: u8,
) -> (res: bool)
    requires
        problem.wf(),
        row_idx < 9,
        col_idx < 9,
    ensures
        res == sole_in_row(problem@, cell_at(row_idx as int, col_idx as int), el),
{
    proof {
        lemma_cell_at(row_idx as int, col_idx as int);
    }
    let mut col_inner_idx: usize = 0;
    while col_inner_idx < 9
        invariant
            problem.wf(),
            row_idx < 9,
            col_idx < 9,
            col_inner_idx <= 9,
            col_of(cell_at(row_idx as int, col_idx as int)) == col_idx,
            row_of(cell_at(row_idx as int, col_idx as int)) == row_idx,
            forall|c2: int|
                0 <= c2 < col_inner_idx && c2 != col_idx ==> !(#[trigger] problem@[cell_at(
                    row_idx as int,
                    c2,
                )]).contains(el),
        decreases 9 - col_inner_idx,
    {
        if col_inner_idx != col_idx {
            proof {
                lemma_cell_at(row_idx as int, col_inner_idx as int);
            }
            if problem.dom_contains(row_idx * 9 + col_inner_idx, el) {
                proof {
                    let i = cell_at(row_idx as int, col_idx as int);
                    assert(cell_at(row_idx as int, col_inner_idx as int) != i);
                }
                return false;
            }
        }
        col_inner_idx = col_inner_idx + 1;
    }
    proof {
        let i = cell_at(row_idx as int, col_idx as int);
        assert forall|c2: int| 0 <= c2 < 9 && cell_at(row_of(i), c2) != i implies !(
        #[trigger] problem@[cell_at(row_of(i), c2)]).contains(el) by {
            assert(c2 != col_idx);
        }
    }
    true
}

/// Whether no cell of the box except `(row_idx, col_idx)` still allows `el`.
pub fn is_single_element_in_cell(
    problem: &SudokuCandidates,
    row_idx: usize,
    col_idx: usize,
    el: u8,
) -> (res: bool)
    requires
        problem.wf(),
        row_idx < 9,
        col_idx < 9,
    ensures
        res == sole_in_box(problem@, cell_at(row_idx as int, col_idx as int), el),
{
    let ghost i = cell_at(row_idx as int, col_idx as int);
    let ghost b = box_of(i);
    proof {
        lemma_cell_at(row_idx as int, col_idx as int);
        lemma_box_cell_inverse(i);
    }
    let cell_row_idx = row_idx / 3;
    let cell_col_idx = col_idx / 3;
    let base = cell_row_idx * 27 + cell_col_idx * 3;
    let mut t: usize = 0;
    while t < 9
        invariant
            problem.wf(),
            row_idx < 9,
            col_idx < 9,
            i == cell_at(row_idx as int, col_idx as int),
            0 <= i < 81,
            b == box_of(i),
            0 <= b < 9,
            base == (b / 3) * 27 + (b % 3) * 3,
            t <= 9,
            forall|t2: int|
                0 <= t2 < t && box_cell(b, t2) != i ==> !(#[trigger] problem@[box_cell(
                    b,
                    t2,
                )]).contains(el),
        decreases 9 - t,
    {
        let abs = base + (t / 3) * 9 + t % 3;
        proof {
            lemma_box_cell(b, t as int);
            assert(abs == box_cell(b, t as int));
        }
        if abs != row_idx * 9 + col_idx {
            if problem.dom_contains(abs, el) {
                return false;
            }
        }
        t = t + 1;
    }
    true
}

impl SudokuCandidates {
    /// A copy of the candidate list of cell `idx`.
    fn dom_clone(&self, idx: usize) -> (res: Vec<u8>)
        requires
            idx < self@.len(),
        ensures
            res@ == self@[idx as int],
    {
        let res = self.cells[idx].clone();
        proof {
            assert forall|k: int| 0 <= k < self.cells@[idx as int]@.len() implies res@[k]
                == self.cells@[idx as int]@[k] by {
                assert(cloned::<u8>(self.cells@[idx as int]@[k], res@[k]));
            }
            assert(res@ =~= self@[idx as int]);
        }
        res
    }

    /// Scans row-major for an open cell with a digit that is forced there
    /// by one of its units, trying each cell's digits in ascending order,
    /// and returns the first such cell and digit.
    fn find_naked_single(&self) -> (res: Option<(usize, usize, u8)>)
        requires
            self.wf(),
        ensures
            match res {
                Some(found) => {
                    &&& found.0 < 9
                    &&& found.1 < 9
                    &&& self@[cell_at(found.0 as int, found.1 as int)].len() >= 2
                    &&& candidate_single(self@, cell_at(found.0 as int, found.1 as int), found.2)
                    &&& forall|j: int, el2: u8|
                        0 <= j < cell_at(found.0 as int, found.1 as int)
                            ==> !#[trigger] candidate_single(self@, j, el2)
                    &&& forall|el2: u8|
                        el2 < found.2 ==> !candidate_single(
                            self@,
                            cell_at(found.0 as int, found.1 as int),
                            el2,
                        )
                },
                None => forall|j: int, el2: u8|
                    0 <= j < 81 ==> !#[trigger] candidate_single(self@, j, el2),
            },
    {
        let mut row_idx: usize = 0;
        while row_idx < 9
            invariant
                self.wf(),
                row_idx <= 9,
                forall|j: int, el2: u8|
                    0 <= j < row_idx * 9 ==> !#[trigger] candidate_single(self@, j, el2),
            decreases 9 - row_idx,
        {
            let mut col_idx: usize = 0;
            while col_idx < 9
                invariant
                    self.wf(),
                    row_idx < 9,
                    col_idx <= 9,
                    forall|j: int, el2: u8|
                        0 <= j < row_idx * 9 + col_idx ==> !#[trigger] candidate_single(
                            self@,
                            j,
                            el2,
                        ),
                decreases 9 - col_idx,
            {
                proof {
                    lemma_cell_at(row_idx as int, col_idx as int);
                }
                let idx = row_idx * 9 + col_idx;
                let n = self.dom_len(idx);
                if n != 1 {
                    let mut k: usize = 0;
                    while k < n
                        invariant
                            self.wf(),
                            row_idx < 9,
                            col_idx < 9,
                            idx == row_idx * 9 + col_idx,
                            idx < 81,
                            n == self@[idx as int].len(),
                            n >= 2,
                            k <= n,
                            forall|j: int, el2: u8|
                                0 <= j < idx ==> !#[trigger] candidate_single(self@, j, el2),
                            forall|p: int|
                                0 <= p < k ==> !candidate_single(
                                    self@,
                                    idx as int,
                                    #[trigger] self@[idx as int][p],
                                ),
                        decreases n - k,
                    {
                        let el = self.dom_get(idx, k);
                        if is_single_element_in_col(self, row_idx, col_idx, el)
                            || is_single_element_in_row(self, row_idx, col_idx, el)
                            || is_single_element_in_cell(self, row_idx, col_idx, el) {
                            proof {
                                assert(candidate_single(self@, idx as int, el));
                                // Smaller digits of this cell sit at earlier
                                // positions of the sorted domain, and were
                                // all rejected.
                                assert forall|el2: u8| el2 < el implies !candidate_single(
                                    self@,
                                    idx as int,
                                    el2,
                                ) by {
                                    if candidate_single(self@, idx as int, el2) {
                                        let p = choose|p: int|
                                            0 <= p < n && self@[idx as int][p] == el2;
                                        assert(p < k) by {
                                            if p >= k {
                                                assert(self@[idx as int][p] >= self@[idx as int][
                                                k as int]);
                                            }
                                        }
                                        assert(!candidate_single(
                                            self@,
                                            idx as int,
                                            self@[idx as int][p],
                                        ));
                                    }
                                }
                            }
                            return Some((row_idx, col_idx, el));
                        }
                        k = k + 1;
                    }
                }
                proof {
                    // This cell offers no forced digit: it is solved, or
                    // every digit of its domain was rejected.
                    assert forall|el2: u8| !candidate_single(self@, idx as int, el2) by {
                        if candidate_single(self@, idx as int, el2) {
                            let p = choose|p: int|
                                0 <= p < self@[idx as int].len() && self@[idx as int][p] == el2;
                            assert(!candidate_single(self@, idx as int, self@[idx as int][p]));
                        }
                    }
                    assert forall|j: int, el2: u8|
                        0 <= j < row_idx * 9 + col_idx + 1 implies !#[trigger] candidate_single(
                        self@,
                        j,
                        el2,
                    ) by {
                        if j == idx {
                            assert(!candidate_single(self@, idx as int, el2));
                        }
                    }
                }
                col_idx = col_idx + 1;
            }
            row_idx = row_idx + 1;
        }
        None
    }

    /// Chooses the cell and digits to branch on next, in the policy's
    /// strict priority order: the first naked single in row-major scan
    /// order (a deduction, tried alone), and only when none exists the
    /// first open cell with two candidates, else the first open cell of
    /// minimum candidate count, with its whole domain in ascending order.
    /// Returns `None` only on a complete board.  Whatever is returned,
    /// the candidate list covers every completion the board still allows.
    pub fn get_best_place_and_number_to_insert(&self) -> (res: Option<InsertionCandidate>)
        requires
            self.wf(),
        ensures
            match res {
                Some(ic) => {
                    &&& ic.row_idx < 9
                    &&& ic.col_idx < 9
                    &&& self@[cell_at(ic.row_idx as int, ic.col_idx as int)].len() >= 2
                    &&& ic.candidates@.len() >= 1
                    &&& forall|t: int|
                        0 <= t < ic.candidates@.len() ==> self@[cell_at(
                            ic.row_idx as int,
                            ic.col_idx as int,
                        )].contains(#[trigger] ic.candidates@[t])
                    &&& covers_solutions(ic, self@)
                    &&& ic.candidates@.len() == 1 ==> {
                        &&& candidate_single(
                            self@,
                            cell_at(ic.row_idx as int, ic.col_idx as int),
                            ic.candidates@[0],
                        )
                        &&& forall|j: int, el2: u8|
                            0 <= j < cell_at(ic.row_idx as int, ic.col_idx as int)
                                ==> !#[trigger] candidate_single(self@, j, el2)
                        &&& forall|el2: u8|
                            el2 < ic.candidates@[0] ==> !candidate_single(
                                self@,
                                cell_at(ic.row_idx as int, ic.col_idx as int),
                                el2,
                            )
                    }
                    &&& ic.candidates@.len() >= 2 ==> {
                        &&& forall|j: int, el2: u8|
                            0 <= j < 81 ==> !#[trigger] candidate_single(self@, j, el2)
                        &&& ic.candidates@ == self@[cell_at(ic.row_idx as int, ic.col_idx as int)]
                        &&& forall|j: int|
                            0 <= j < cell_at(ic.row_idx as int, ic.col_idx as int) ==> (
                            #[trigger] self@[j]).len() != 2
                        &&& ic.candidates@.len() > 2 ==> {
                            &&& forall|j: int| 0 <= j < 81 ==> (#[trigger] self@[j]).len() != 2
                            &&& forall|j: int|
                                0 <= j < 81 ==> (#[trigger] self@[j]).len() == 1 || self@[j].len()
                                    >= ic.candidates@.len()
                            &&& forall|j: int|
                                0 <= j < cell_at(ic.row_idx as int, ic.col_idx as int) ==> (
                                #[trigger] self@[j]).len() == 1 || self@[j].len()
                                    > ic.candidates@.len()
                        }
                    }
                },
                None => grid_complete(self@),
            },
    {
        match self.find_naked_single() {
            Some(found) => {
                let (row_idx, col_idx, el) = found;
                let mut candidates: Vec<u8> = Vec::new();
                candidates.push(el);
                let ic = InsertionCandidate { row_idx, col_idx, candidates };
                proof {
                    let i = cell_at(row_idx as int, col_idx as int);
                    lemma_cell_at(row_idx as int, col_idx as int);
                    assert(ic.candidates@ =~= seq![el]);
                    assert forall|a: Seq<u8>| #[trigger] solves(a, self@) implies ic.candidates@
                        .contains(a[i]) by {
                        lemma_forced_digit(self@, a, i, el);
                        assert(ic.candidates@[0] == a[i]);
                    }
                }
                Some(ic)
            },
            None => self.pick_fewest_candidates(),
        }
    }

    /// The minimum-remaining-values fallback: the first open cell with two
    /// candidates, else the first open cell of minimum candidate count.
    fn pick_fewest_candidates(&self) -> (res: Option<InsertionCandidate>)
        requires
            self.wf(),
        ensures
            match res {
                Some(ic) => {
                    &&& ic.row_idx < 9
                    &&& ic.col_idx < 9
                    &&& self@[cell_at(ic.row_idx as int, ic.col_idx as int)].len() >= 2
                    &&& ic.candidates@ == self@[cell_at(ic.row_idx as int, ic.col_idx as int)]
                    &&& covers_solutions(ic, self@)
                    &&& forall|j: int|
                        0 <= j < cell_at(ic.row_idx as int, ic.col_idx as int) ==> (
                        #[trigger] self@[j]).len() != 2
                    &&& self@[cell_at(ic.row_idx as int, ic.col_idx as int)].len() > 2 ==> {
                        &&& forall|j: int| 0 <= j < 81 ==> (#[trigger] self@[j]).len() != 2
                        &&& forall|j: int|
                            0 <= j < 81 ==> (#[trigger] self@[j]).len() == 1 || self@[j].len()
                                >= self@[cell_at(ic.row_idx as int, ic.col_idx as int)].len()
                        &&& forall|j: int|
                            0 <= j < cell_at(ic.row_idx as int, ic.col_idx as int) ==> (
                            #[trigger] self@[j]).len() == 1 || self@[j].len() > self@[cell_at(
                                ic.row_idx as int,
                                ic.col_idx as int,
                            )].len()
                    }
                },
                None => grid_complete(self@),
            },
    {
        let mut best_row: usize = 0;
        let mut best_col: usize = 0;
        let mut shortest_len: usize = 100;
        let mut found = false;
        let mut row_idx: usize = 0;
        while row_idx < 9
            invariant
                self.wf(),
                row_idx <= 9,
                forall|k: int| 0 <= k < row_idx * 9 ==> (#[trigger] self@[k]).len() != 2,
                found ==> {
                    &&& best_row < 9
                    &&& best_col < 9
                    &&& cell_at(best_row as int, best_col as int) < row_idx * 9
                    &&& shortest_len == self@[cell_at(best_row as int, best_col as int)].len()
                    &&& shortest_len > 2
                    &&& forall|k: int|
                        0 <= k < row_idx * 9 ==> (#[trigger] self@[k]).len() == 1 || self@[
                        k].len() >= shortest_len
                    &&& forall|k: int|
                        0 <= k < cell_at(best_row as int, best_col as int) ==> (
                        #[trigger] self@[k]).len() == 1 || self@[k].len() > shortest_len
                },
                !found ==> shortest_len == 100,
                !found ==> forall|k: int|
                    0 <= k < row_idx * 9 ==> (#[trigger] self@[k]).len() == 1,
            decreases 9 - row_idx,
        {
            let mut col_idx: usize = 0;
            while col_idx < 9
                invariant
                    self.wf(),
                    row_idx < 9,
                    col_idx <= 9,
                    forall|k: int|
                        0 <= k < row_idx * 9 + col_idx ==> (#[trigger] self@[k]).len() != 2,
                    found ==> {
                        &&& best_row < 9
                        &&& best_col < 9
                        &&& cell_at(best_row as int, best_col as int) < row_idx * 9 + col_idx
                        &&& shortest_len == self@[cell_at(best_row as int, best_col as int)].len()
                        &&& shortest_len > 2
                        &&& forall|k: int|
                            0 <= k < row_idx * 9 + col_idx ==> (#[trigger] self@[k]).len() == 1
                                || self@[k].len() >= shortest_len
                        &&& forall|k: int|
                            0 <= k < cell_at(best_row as int, best_col as int) ==> (
                            #[trigger] self@[k]).len() == 1 || self@[k].len() > shortest_len
                    },
                    !found ==> shortest_len == 100,
                    !found ==> forall|k: int|
                        0 <= k < row_idx * 9 + col_idx ==> (#[trigger] self@[k]).len() == 1,
                decreases 9 - col_idx,
            {
                proof {
                    lemma_cell_at(row_idx as int, col_idx as int);
                    lemma_dom_len_bound(self@[cell_at(row_idx as int, col_idx as int)]);
                }
                let idx = row_idx * 9 + col_idx;
                let current_prob_len = self.dom_len(idx);
                if current_prob_len == 2 {
                    let candidates = self.dom_clone(idx);
                    let ic = InsertionCandidate {
                        row_idx,
                        col_idx,
                        candidates,
                    };
                    proof {
                        lemma_covers_from_domain(self@, ic);
                    }
                    return Some(ic);
                } else if current_prob_len > 2 && current_prob_len < shortest_len {
                    best_row = row_idx;
                    best_col = col_idx;
                    shortest_len = current_prob_len;
                    found = true;
                }
                col_idx = col_idx + 1;
            }
            row_idx = row_idx + 1;
        }
        if found {
            proof {
                lemma_cell_at(best_row as int, best_col as int);
            }
            let candidates = self.dom_clone(best_row * 9 + best_col);
            let ic = InsertionCandidate { row_idx: best_row, col_idx: best_col, candidates };
            proof {
                lemma_covers_from_domain(self@, ic);
            }
            Some(ic)
        } else {
            None
        }
    }
}

/// A candidate list that is exactly the chosen cell's domain covers every
/// completion the board allows.
proof fn lemma_covers_from_domain(g: Seq<Seq<u8>>, ic: InsertionCandidate)
    requires
        ic.row_idx < 9,
        ic.col_idx < 9,
        0 <= cell_at(ic.row_idx as int, ic.col_idx as int) < 81,
        ic.candidates@ == g[cell_at(ic.row_idx as int, ic.col_idx as int)],
    ensures
        covers_solutions(ic, g),
{
    let i = cell_at(ic.row_idx as int, ic.col_idx as int);
    assert forall|a: Seq<u8>| #[trigger] solves(a, g) implies ic.candidates@.contains(a[i]) by {
        assert(g[i].contains(a[i]));
    }
}

/// If a digit fits nowhere else in one of the units of cell `i`, every
/// completion of the board places it at `i`.
proof fn lemma_forced_digit(g: Seq<Seq<u8>>, a: Seq<u8>, i: int, el: u8)
    requires
        0 <= i < 81,
        1 <= el <= 9,
        naked_single_at(g, i, el),
        solves(a, g),
    ensures
        a[i] == el,
{
    let r = row_of(i);
    let c = col_of(i);
    assert(i == cell_at(r, c));
    if sole_in_row(g, i, el) {
        lemma_row_digits(a, r);
        assert(crate::digits::row_vals(a, r).contains(el));
        let c2 = choose|c2: int| 0 <= c2 < 9 && crate::digits::row_vals(a, r)[c2] == el;
        assert(a[cell_at(r, c2)] == el);
        lemma_cell_at(r, c2);
        assert(g[cell_at(r, c2)].contains(el));
        assert(cell_at(r, c2) == i);
    } else if sole_in_col(g, i, el) {
        lemma_col_digits(a, c);
        assert(crate::digits::col_vals(a, c).contains(el));
        let r2 = choose|r2: int| 0 <= r2 < 9 && crate::digits::col_vals(a, c)[r2] == el;
        assert(a[cell_at(r2, c)] == el);
        lemma_cell_at(r2, c);
        assert(g[cell_at(r2, c)].contains(el));
        assert(cell_at(r2, c) == i);
    } else {
        let b = box_of(i);
        lemma_box_cell_inverse(i);
        lemma_box_digits(a, b);
        assert(crate::digits::box_vals(a, b).contains(el));
        let t = choose|t: int| 0 <= t < 9 && crate::digits::box_vals(a, b)[t] == el;
        assert(a[box_cell(b, t)] == el);
        lemma_box_cell(b, t);
        assert(g[box_cell(b, t)].contains(el));
        assert(box_cell(b, t) == i);
    }
}

} // verus!
