//! The candidate board: 81 cells, each holding the set of digits still
//! possible there, stored as a strictly increasing vector.

use vstd::prelude::*;

use crate::model::{
    cell_at, cell_clean, dom_sorted, dom_wf, givens_committed, grid_subset, grid_wf,
    lemma_cell_at, lemma_subset_of_singleton, matches_givens, propagation_closed, same_unit,
    solves, valid_values,
};
use crate::propagate::remove_duplicates;

verus! {

/// A 9x9 Sudoku board under construction: every cell carries the digits
/// that may still be placed there.  Cells are stored row-major.
pub struct SudokuCandidates {
    pub cells: Vec<Vec<u8>>,
}

impl View for SudokuCandidates {
    type V = Seq<Seq<u8>>;

    open spec fn view(&self) -> Seq<Seq<u8>> {
        self.cells.deep_view()
    }
}

impl SudokuCandidates {
    /// The board is well-formed: 81 nonempty, strictly increasing domains
    /// of digits 1..=9.
    pub open spec fn wf(&self) -> bool {
        grid_wf(self@)
    }

    /// The board where every cell still allows all nine digits.
    pub fn initial() -> (res: SudokuCandidates)
        ensures
            res.wf(),
            forall|i: int| 0 <= i < 81 ==> res@[i] =~= seq![1u8, 2, 3, 4, 5, 6, 7, 8, 9],
    {
        let mut all_digits: Vec<u8> = Vec::new();
        let mut d: u8 = 1;
        while d <= 9
            invariant
                1 <= d <= 10,
                all_digits@.len() == d - 1,
                forall|k: int| 0 <= k < d - 1 ==> all_digits@[k] == k + 1,
            decreases 10 - d,
        {
            all_digits.push(d);
            d = d + 1;
        }
        assert(all_digits@ =~= seq![1u8, 2, 3, 4, 5, 6, 7, 8, 9]);
        let mut cells: Vec<Vec<u8>> = Vec::new();
        let mut i: usize = 0;
        while i < 81
            invariant
                i <= 81,
                cells@.len() == i,
                all_digits@ =~= seq![1u8, 2, 3, 4, 5, 6, 7, 8, 9],
                forall|k: int| 0 <= k < i ==> (#[trigger] cells@[k])@ =~= all_digits@,
            decreases 81 - i,
        {
            cells.push(all_digits.clone());
            i = i + 1;
        }
        let res = SudokuCandidates { cells };
        assert forall|k: int| 0 <= k < 81 implies res@[k] =~= seq![1u8, 2, 3, 4, 5, 6, 7, 8, 9] by {
            assert(res@[k] == cells@[k]@);
        }
        assert(res.wf()) by {
            assert forall|k: int| 0 <= k < 81 implies dom_wf(#[trigger] res@[k]) by {
                assert(res@[k] =~= seq![1u8, 2, 3, 4, 5, 6, 7, 8, 9]);
            }
        }
        res
    }

    /// Number of candidates left in the cell with flat index `idx`.
    pub fn dom_len(&self, idx: usize) -> (n: usize)
        requires
            idx < self@.len(),
        ensures
            n == self@[idx as int].len(),
    {
        self.cells[idx].len()
    }

    /// The `k`-th remaining candidate of the cell with flat index `idx`.
    pub fn dom_get(&self, idx: usize, k: usize) -> (d: u8)
        requires
            idx < self@.len(),
            k < self@[idx as int].len(),
        ensures
            d == self@[idx as int][k as int],
    {
        self.cells[idx][k]
    }

    /// Position of digit `d` among the candidates of cell `idx`, if present.
    pub fn dom_find(&self, idx: usize, d: u8) -> (res: Option<usize>)
        requires
            idx < self@.len(),
        ensures
            match res {
                Some(p) => p < self@[idx as int].len() && self@[idx as int][p as int] == d,
                None => !self@[idx as int].contains(d),
            },
    {
        let n = self.cells[idx].len();
        let mut k: usize = 0;
        while k < n
            invariant
                idx < self@.len(),
                n == self@[idx as int].len(),
                k <= n,
                forall|j: int| 0 <= j < k ==> self@[idx as int][j] != d,
            decreases n - k,
        {
            if self.cells[idx][k] == d {
                return Some(k);
            }
            k = k + 1;
        }
        None
    }

    /// Whether digit `d` is still a candidate of cell `idx`.
    pub fn dom_contains(&self, idx: usize, d: u8) -> (res: bool)
        requires
            idx < self@.len(),
        ensures
            res == self@[idx as int].contains(d),
    {
        match self.dom_find(idx, d) {
            Some(_) => true,
            None => false,
        }
    }

    /// Builds the candidate board from a flat list of 81 digits (0 = blank),
    /// committing each given and propagating it at once.  The result is
    /// pinned exactly: it is the largest well-formed propagation-closed
    /// board that commits every given.  Returns `None` exactly when no
    /// such board exists (propagation runs into a contradiction); the
    /// givens are then already inconsistent and the puzzle has no
    /// completion.
    pub fn from_vec(numbers: Vec<u8>) -> (res: Option<SudokuCandidates>)
        requires
            numbers@.len() == 81,
            forall|k: int| 0 <= k < 81 ==> #[trigger] numbers@[k] <= 9,
        ensures
            match res {
                Some(g) => {
                    &&& g.wf()
                    &&& givens_committed(g@, numbers@)
                    &&& propagation_closed(g@)
                    &&& forall|k: int, j: int|
                        0 <= k < 81 && numbers@[k] != 0 && 0 <= j < 81 && #[trigger] same_unit(
                            j,
                            k,
                        ) ==> !g@[j].contains(numbers@[k])
                    &&& forall|gg: Seq<Seq<u8>>|
                        grid_wf(gg) && propagation_closed(gg) && #[trigger] givens_committed(
                            gg,
                            numbers@,
                        ) ==> grid_subset(gg, g@)
                    &&& forall|a: Seq<u8>|
                        valid_values(a) && #[trigger] matches_givens(a, numbers@) ==> solves(a, g@)
                },
                None => {
                    &&& forall|a: Seq<u8>|
                        !(valid_values(a) && #[trigger] matches_givens(a, numbers@))
                    &&& forall|gg: Seq<Seq<u8>>|
                        !(grid_wf(gg) && propagation_closed(gg) && #[trigger] givens_committed(
                            gg,
                            numbers@,
                        ))
                },
            },
    {
        let mut problem = SudokuCandidates::initial();
        proof {
            assert forall|a: Seq<u8>|
                valid_values(a) && #[trigger] matches_givens(a, numbers@) implies solves(
                a,
                problem@,
            ) by {
                assert forall|k: int| 0 <= k < 81 implies (#[trigger] problem@[k]).contains(
                    a[k],
                ) by {
                    assert(1 <= a[k] <= 9);
                    assert(problem@[k][a[k] - 1] == a[k]);
                }
            }
            assert(propagation_closed(problem@)) by {
                assert forall|c: int|
                    0 <= c < 81 && problem@[c].len() == 1 implies #[trigger] cell_clean(
                    problem@,
                    c,
                ) by {
                    assert(problem@[c] =~= seq![1u8, 2, 3, 4, 5, 6, 7, 8, 9]);
                }
            }
            assert forall|gg: Seq<Seq<u8>>|
                grid_wf(gg) && propagation_closed(gg) && #[trigger] givens_committed(
                    gg,
                    numbers@,
                ) implies grid_subset(gg, problem@) by {
                assert forall|ii: int, d: u8|
                    0 <= ii < 81 && #[trigger] gg[ii].contains(d) implies problem@[ii].contains(
                    d,
                ) by {
                    let pz = choose|pz: int| 0 <= pz < gg[ii].len() && gg[ii][pz] == d;
                    assert(1 <= d <= 9);
                    assert(problem@[ii] =~= seq![1u8, 2, 3, 4, 5, 6, 7, 8, 9]);
                    assert(problem@[ii][d - 1] == d);
                }
            }
        }
        let mut i: usize = 0;
        while i < 81
            invariant
                numbers@.len() == 81,
                forall|k: int| 0 <= k < 81 ==> #[trigger] numbers@[k] <= 9,
                i <= 81,
                problem.wf(),
                forall|k: int| 0 <= k < i && numbers@[k] != 0 ==> problem@[k] == seq![numbers@[k]],
                forall|k: int, j: int|
                    0 <= k < i && numbers@[k] != 0 && 0 <= j < 81 && #[trigger] same_unit(j, k)
                        ==> !problem@[j].contains(numbers@[k]),
                propagation_closed(problem@),
                forall|gg: Seq<Seq<u8>>|
                    grid_wf(gg) && propagation_closed(gg) && #[trigger] givens_committed(
                        gg,
                        numbers@,
                    ) ==> grid_subset(gg, problem@),
                forall|a: Seq<u8>|
                    valid_values(a) && #[trigger] matches_givens(a, numbers@) ==> solves(
                        a,
                        problem@,
                    ),
            decreases 81 - i,
        {
            let item = numbers[i];
            if item != 0 {
                let row_idx = i / 9;
                let col_idx = i % 9;
                let ghost before = problem@;
                problem.set_cell(i, item);
                proof {
                    lemma_cell_at(row_idx as int, col_idx as int);
                    assert(cell_at(row_idx as int, col_idx as int) == i);
                    assert(problem@[i as int] == seq![item]);
                    assert(problem.wf()) by {
                        assert forall|k: int| 0 <= k < 81 implies dom_wf(
                            #[trigger] problem@[k],
                        ) by {
                            if k != i {
                                assert(problem@[k] == before[k]);
                            }
                        }
                    }
                    assert forall|a: Seq<u8>|
                        valid_values(a) && #[trigger] matches_givens(a, numbers@) implies solves(
                        a,
                        problem@,
                    ) by {
                        assert(solves(a, before));
                        assert(a[i as int] == numbers@[i as int]);
                        assert forall|k: int| 0 <= k < 81 implies (#[trigger] problem@[k]).contains(
                            a[k],
                        ) by {
                            if k != i {
                                assert(problem@[k] == before[k]);
                            } else {
                                assert(problem@[k] == seq![item]);
                                assert(problem@[k][0] == a[k]);
                            }
                        }
                    }
                }
                let ghost committed = problem@;
                match remove_duplicates(&problem, row_idx, col_idx, item) {
                    Some(g2) => {
                        proof {
                            assert forall|k: int|
                                0 <= k <= i && numbers@[k] != 0 implies g2@[k] == seq![
                                numbers@[k],
                            ] by {
                                assert(committed[k] == seq![numbers@[k]]);
                                assert forall|x: u8| g2@[k].contains(x) implies x
                                    == numbers@[k] by {
                                    assert(committed[k].contains(x));
                                }
                                lemma_subset_of_singleton(g2@[k], numbers@[k]);
                            }
                            // Peers of each committed given no longer hold
                            // its digit: the fresh given by propagation, the
                            // earlier ones because domains only shrink, and
                            // the overwritten cell itself because its digit
                            // was just cleared from the peer that holds the
                            // earlier given.
                            assert forall|k: int, j: int|
                                0 <= k <= i && numbers@[k] != 0 && 0 <= j < 81
                                    && #[trigger] same_unit(j, k) implies !g2@[j].contains(
                                numbers@[k],
                            ) by {
                                if k == i {
                                    assert(!g2@[j].contains(numbers@[k]));
                                } else if j != i {
                                    if g2@[j].contains(numbers@[k]) {
                                        assert(committed[j].contains(numbers@[k]));
                                        assert(committed[j] == before[j]);
                                    }
                                } else {
                                    assert(same_unit(k, i as int));
                                    assert(!g2@[k].contains(item));
                                    assert(g2@[k] == seq![numbers@[k]]);
                                    if g2@[j].contains(numbers@[k]) {
                                        assert(g2@[j] == seq![item]);
                                        assert(numbers@[k] == item);
                                        assert(g2@[k][0] == item);
                                        assert(g2@[k].contains(item));
                                    }
                                }
                            }
                            // Cells solved before this given stay clean on
                            // the committed board; the one case where the
                            // fresh given would clash with a solved peer is
                            // ruled out by the successful propagation.
                            assert forall|c: int|
                                0 <= c < 81 && committed[c].len() == 1 && c != i
                                implies cell_clean(committed, c) by {
                                assert(committed[c] == before[c]);
                                assert(cell_clean(before, c));
                                let dv = before[c][0];
                                if same_unit(i as int, c) && dv == item {
                                    assert(same_unit(c, i as int));
                                    assert(!g2@[c].contains(item));
                                    assert(committed[c] =~= seq![dv]);
                                    assert forall|x: u8| g2@[c].contains(x) implies x == item by {
                                        assert(committed[c].contains(x));
                                    }
                                    lemma_subset_of_singleton(g2@[c], item);
                                    assert(g2@[c].contains(item));
                                } else {
                                    assert forall|j: int|
                                        0 <= j < 81 && #[trigger] same_unit(j, c)
                                        implies !committed[j].contains(dv) by {
                                        if j != i {
                                            assert(committed[j] == before[j]);
                                        } else {
                                            if committed[j].contains(dv) {
                                                assert(dv == item);
                                            }
                                        }
                                    }
                                }
                            }
                            assert(propagation_closed(g2@)) by {
                                assert forall|c: int|
                                    0 <= c < 81 && g2@[c].len() == 1 implies #[trigger] cell_clean(
                                    g2@,
                                    c,
                                ) by {
                                    if c != i && committed[c].len() == 1 {
                                        assert(cell_clean(committed, c));
                                    }
                                    assert(cell_clean(g2@, c));
                                }
                            }
                            // Every closed board committing the givens
                            // refines the board after this step too.
                            assert forall|gg: Seq<Seq<u8>>|
                                grid_wf(gg) && propagation_closed(gg)
                                    && #[trigger] givens_committed(gg, numbers@)
                                implies grid_subset(gg, g2@) by {
                                assert(grid_subset(gg, before));
                                assert(gg[i as int] == seq![numbers@[i as int]]);
                                assert forall|ii: int, d: u8|
                                    0 <= ii < 81 && #[trigger] gg[ii].contains(d)
                                    implies committed[ii].contains(d) by {
                                    if ii == i {
                                        assert(d == item);
                                        assert(committed[ii] == seq![item]);
                                    } else {
                                        assert(committed[ii] == before[ii]);
                                        assert(before[ii].contains(d));
                                    }
                                }
                                assert(grid_subset(gg, committed));
                                assert(grid_subset(gg, g2@));
                            }
                        }
                        problem = g2;
                    },
                    None => {
                        proof {
                            assert forall|a: Seq<u8>|
                                !(valid_values(a) && #[trigger] matches_givens(a, numbers@)) by {
                                if valid_values(a) && matches_givens(a, numbers@) {
                                    assert(solves(a, committed));
                                }
                            }
                            assert forall|gg: Seq<Seq<u8>>|
                                !(grid_wf(gg) && propagation_closed(gg)
                                    && #[trigger] givens_committed(gg, numbers@)) by {
                                if grid_wf(gg) && propagation_closed(gg) && givens_committed(
                                    gg,
                                    numbers@,
                                ) {
                                    assert(grid_subset(gg, before));
                                    assert(gg[i as int] == seq![numbers@[i as int]]);
                                    assert forall|ii: int, d: u8|
                                        0 <= ii < 81 && #[trigger] gg[ii].contains(d)
                                        implies committed[ii].contains(d) by {
                                        if ii == i {
                                            assert(d == item);
                                            assert(committed[ii] == seq![item]);
                                        } else {
                                            assert(committed[ii] == before[ii]);
                                            assert(before[ii].contains(d));
                                        }
                                    }
                                    assert(grid_subset(gg, committed));
                                }
                            }
                        }
                        return None;
                    },
                }
            }
            i = i + 1;
        }
        proof {
            assert(givens_committed(problem@, numbers@)) by {
                assert forall|k: int|
                    0 <= k < 81 && numbers@[k] != 0 implies #[trigger] problem@[k] == seq![
                    numbers@[k],
                ] by {}
            }
        }
        Some(problem)
    }

    /// Commits cell `idx` to the single digit `d`.
    pub fn set_cell(&mut self, idx: usize, d: u8)
        requires
            idx < old(self)@.len(),
        ensures
            final(self)@ == old(self)@.update(idx as int, seq![d]),
    {
        let mut dom: Vec<u8> = Vec::new();
        dom.push(d);
        self.cells[idx] = dom;
        proof {
            assert(self@ =~~= old(self)@.update(idx as int, seq![d]));
        }
    }

    /// Removes digit `d` from the candidates of cell `idx`, if present.
    /// Returns whether a removal happened.
    pub fn remove_from_cell(&mut self, idx: usize, d: u8) -> (removed: bool)
        requires
            idx < old(self)@.len(),
            dom_sorted(old(self)@[idx as int]),
        ensures
            removed == old(self)@[idx as int].contains(d),
            final(self)@.len() == old(self)@.len(),
            forall|j: int|
                0 <= j < final(self)@.len() && j != idx ==> final(self)@[j] == old(self)@[j],
            dom_sorted(final(self)@[idx as int]),
            !final(self)@[idx as int].contains(d),
            forall|e: u8| e != d ==> (final(self)@[idx as int].contains(e) == old(
                self,
            )@[idx as int].contains(e)),
            final(self)@[idx as int].len() == old(self)@[idx as int].len() - (if removed {
                1int
            } else {
                0int
            }),
            !removed ==> final(self)@ == old(self)@,
    {
        let ghost old_dom = self@[idx as int];
        match self.dom_find(idx, d) {
            None => {
                false
            },
            Some(p) => {
                let mut dom = self.cells[idx].clone();
                proof {
                    assert forall|i: int| 0 <= i < old_dom.len() implies dom@[i] == old_dom[i] by {
                        assert(cloned::<u8>(self.cells@[idx as int]@[i], dom@[i]));
                    }
                    assert(dom@ =~= old_dom);
                }
                dom.remove(p);
                self.cells[idx] = dom;
                proof {
                    let new_dom = old_dom.remove(p as int);
                    assert(self@ =~~= old(self)@.update(idx as int, new_dom));
                    // d occurs only at position p, since the domain is strictly
                    // increasing; so it is gone from the remainder.
                    assert forall|j: int| 0 <= j < new_dom.len() implies new_dom[j] != d by {
                        if j < p {
                            assert(new_dom[j] == old_dom[j]);
                        } else {
                            assert(new_dom[j] == old_dom[j + 1]);
                        }
                    }
                    assert(!new_dom.contains(d));
                    assert forall|e: u8| e != d && old_dom.contains(e) implies new_dom.contains(
                        e,
                    ) by {
                        let j = choose|j: int| 0 <= j < old_dom.len() && old_dom[j] == e;
                        if j < p {
                            assert(new_dom[j] == e);
                        } else {
                            assert(new_dom[j - 1] == e);
                        }
                    }
                    assert forall|e: u8| e != d && new_dom.contains(e) implies old_dom.contains(
                        e,
                    ) by {
                        let j = choose|j: int| 0 <= j < new_dom.len() && new_dom[j] == e;
                        if j < p {
                            assert(old_dom[j] == e);
                        } else {
                            assert(old_dom[j + 1] == e);
                        }
                    }
                }
                true
            },
        }
    }
}

impl Clone for SudokuCandidates {
    /// Cloning a board preserves every candidate of every cell.
    fn clone(&self) -> (res: Self)
        ensures
            res@ == self@,
    {
        let cells = self.cells.clone();
        proof {
            assert forall|i: int| 0 <= i < self.cells@.len() implies cells@[i]@ == self.cells@[i]@ by {
                assert(cloned::<Vec<u8>>(self.cells@[i], cells@[i]));
                if self.cells@[i] != cells@[i] {
                    assert(call_ensures(<Vec<u8> as Clone>::clone, (&self.cells@[i],), cells@[i]));
                    assert(cells@[i]@ =~= self.cells@[i]@);
                }
            }
            assert(cells.deep_view() =~~= self.cells.deep_view());
        }
        SudokuCandidates { cells }
    }
}

} // verus!
