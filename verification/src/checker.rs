//! Conflict and completion checks: whether two solved peers already hold
//! the same digit, and whether the board is a finished, valid solution.

use vstd::prelude::*;

use crate::digits::{
    col_vals, digits_in_range, distinct_seq, lemma_nine_distinct_digits, row_vals, seq_sum,
};
use crate::grid::SudokuCandidates;
use crate::model::{
    box_cell, box_of, box_pos, cell_at, conflict_at, grid_complete, grid_values, has_conflict,
    lemma_box_cell, lemma_box_cell_inverse, lemma_cell_at, same_box, same_col, same_row,
};

verus! {

/// Two cells of row `r` (at columns `c1 < c2`) are solved to the same digit.
pub open spec fn row_conflict(g: Seq<Seq<u8>>, r: int, c1: int, c2: int) -> bool {
    &&& 0 <= c1 < c2 < 9
    &&& g[cell_at(r, c1)].len() == 1
    &&& g[cell_at(r, c2)].len() == 1
    &&& g[cell_at(r, c1)][0] == g[cell_at(r, c2)][0]
}

/// Two cells of column `c` (at rows `r1 < r2`) are solved to the same digit.
pub open spec fn col_conflict(g: Seq<Seq<u8>>, c: int, r1: int, r2: int) -> bool {
    &&& 0 <= r1 < r2 < 9
    &&& g[cell_at(r1, c)].len() == 1
    &&& g[cell_at(r2, c)].len() == 1
    &&& g[cell_at(r1, c)][0] == g[cell_at(r2, c)][0]
}

/// Two cells of box `b` (at positions `t1 < t2`) are solved to the same digit.
pub open spec fn box_conflict(g: Seq<Seq<u8>>, b: int, t1: int, t2: int) -> bool {
    &&& 0 <= t1 < t2 < 9
    &&& g[box_cell(b, t1)].len() == 1
    &&& g[box_cell(b, t2)].len() == 1
    &&& g[box_cell(b, t1)][0] == g[box_cell(b, t2)][0]
}

impl SudokuCandidates {
    /// Scans the nine cells given by flat indices `base + step * k` for a
    /// solved duplicated digit.
    fn scan_unit(&self, base: usize, step: usize) -> (res: bool)
        requires
            self.wf(),
            base + 8 * step < 81,
        ensures
            res == exists|k1: int, k2: int|
                0 <= k1 < k2 < 9 && #[trigger] unit_pair_conflict(
                    self@,
                    base as int,
                    step as int,
                    k1,
                    k2,
                ),
    {
        let mut k1: usize = 0;
        while k1 < 9
            invariant
                self.wf(),
                base + 8 * step < 81,
                k1 <= 9,
                forall|a: int, b: int|
                    0 <= a < b < 9 && a < k1 ==> !#[trigger] unit_pair_conflict(
                        self@,
                        base as int,
                        step as int,
                        a,
                        b,
                    ),
            decreases 9 - k1,
        {
            proof {
                assert(step * k1 <= step * 8) by (nonlinear_arith)
                    requires
                        0 <= k1 <= 8,
                        step >= 0,
                ;
            }
            let i1 = base + step * k1;
            if self.dom_len(i1) == 1 {
                let v1 = self.dom_get(i1, 0);
                let mut k2: usize = k1 + 1;
                while k2 < 9
                    invariant
                        self.wf(),
                        base + 8 * step < 81,
                        k1 < 9,
                        k1 < k2 <= 9,
                        i1 == base + step * k1,
                        self@[i1 as int].len() == 1,
                        v1 == self@[i1 as int][0],
                        forall|b: int|
                            k1 < b < k2 ==> !#[trigger] unit_pair_conflict(
                                self@,
                                base as int,
                                step as int,
                                k1 as int,
                                b,
                            ),
                    decreases 9 - k2,
                {
                    proof {
                        assert(step * k2 <= step * 8) by (nonlinear_arith)
                            requires
                                0 <= k2 <= 8,
                                step >= 0,
                        ;
                    }
                    let i2 = base + step * k2;
                    if self.dom_len(i2) == 1 {
                        if self.dom_get(i2, 0) == v1 {
                            assert(unit_pair_conflict(
                                self@,
                                base as int,
                                step as int,
                                k1 as int,
                                k2 as int,
                            ));
                            return true;
                        }
                    }
                    k2 = k2 + 1;
                }
            }
            k1 = k1 + 1;
        }
        false
    }

    /// True exactly when some row, column, or box holds two solved cells
    /// with the same digit.  This is the dead-end test of the search: such
    /// a board can never be completed.
    pub fn has_unresolvable_conflicts(&self) -> (res: bool)
        requires
            self.wf(),
        ensures
            res == has_conflict(self@),
    {
        let mut r: usize = 0;
        while r < 9
            invariant
                self.wf(),
                r <= 9,
                forall|r0: int, c1: int, c2: int|
                    0 <= r0 < r && 0 <= c1 < c2 < 9 ==> !#[trigger] row_conflict(self@, r0, c1, c2),
            decreases 9 - r,
        {
            if self.scan_unit(r * 9, 1) {
                proof {
                    let (k1, k2) = choose|k1: int, k2: int|
                        0 <= k1 < k2 < 9 && #[trigger] unit_pair_conflict(
                            self@,
                            (r * 9) as int,
                            1,
                            k1,
                            k2,
                        );
                    lemma_cell_at(r as int, k1);
                    lemma_cell_at(r as int, k2);
                    assert(conflict_at(self@, cell_at(r as int, k1), cell_at(r as int, k2)));
                }
                return true;
            }
            proof {
                assert forall|c1: int, c2: int| 0 <= c1 < c2 < 9 implies !row_conflict(
                    self@,
                    r as int,
                    c1,
                    c2,
                ) by {
                    assert(cell_at(r as int, c1) == r * 9 + 1 * c1);
                    assert(cell_at(r as int, c2) == r * 9 + 1 * c2);
                    assert(!unit_pair_conflict(self@, (r * 9) as int, 1, c1, c2));
                }
            }
            r = r + 1;
        }
        let mut c: usize = 0;
        while c < 9
            invariant
                self.wf(),
                c <= 9,
                forall|r0: int, c1: int, c2: int|
                    0 <= r0 < 9 && 0 <= c1 < c2 < 9 ==> !#[trigger] row_conflict(self@, r0, c1, c2),
                forall|c0: int, r1: int, r2: int|
                    0 <= c0 < c && 0 <= r1 < r2 < 9 ==> !#[trigger] col_conflict(self@, c0, r1, r2),
            decreases 9 - c,
        {
            if self.scan_unit(c, 9) {
                proof {
                    let (k1, k2) = choose|k1: int, k2: int|
                        0 <= k1 < k2 < 9 && #[trigger] unit_pair_conflict(
                            self@,
                            c as int,
                            9,
                            k1,
                            k2,
                        );
                    lemma_cell_at(k1, c as int);
                    lemma_cell_at(k2, c as int);
                    assert(conflict_at(self@, cell_at(k1, c as int), cell_at(k2, c as int)));
                }
                return true;
            }
            proof {
                assert forall|r1: int, r2: int| 0 <= r1 < r2 < 9 implies !col_conflict(
                    self@,
                    c as int,
                    r1,
                    r2,
                ) by {
                    assert(cell_at(r1, c as int) == c + 9 * r1);
                    assert(cell_at(r2, c as int) == c + 9 * r2);
                    assert(!unit_pair_conflict(self@, c as int, 9, r1, r2));
                }
            }
            c = c + 1;
        }
        let mut b: usize = 0;
        while b < 9
            invariant
                self.wf(),
                b <= 9,
                forall|r0: int, c1: int, c2: int|
                    0 <= r0 < 9 && 0 <= c1 < c2 < 9 ==> !#[trigger] row_conflict(self@, r0, c1, c2),
                forall|c0: int, r1: int, r2: int|
                    0 <= c0 < 9 && 0 <= r1 < r2 < 9 ==> !#[trigger] col_conflict(self@, c0, r1, r2),
                forall|b0: int, t1: int, t2: int|
                    0 <= b0 < b && 0 <= t1 < t2 < 9 ==> !#[trigger] box_conflict(self@, b0, t1, t2),
            decreases 9 - b,
        {
            if self.box_has_conflict(b) {
                proof {
                    let (t1, t2) = choose|t1: int, t2: int|
                        #[trigger] box_conflict(self@, b as int, t1, t2);
                    lemma_box_cell(b as int, t1);
                    lemma_box_cell(b as int, t2);
                    assert(conflict_at(self@, box_cell(b as int, t1), box_cell(b as int, t2)));
                }
                return true;
            }
            b = b + 1;
        }
        proof {
            // No unit scan found a duplicate, so no two solved peers agree.
            assert forall|i: int, j: int| !conflict_at(self@, i, j) by {
                if conflict_at(self@, i, j) {
                    let ri = i / 9;
                    let ci = i % 9;
                    let rj = j / 9;
                    let cj = j % 9;
                    assert(i == cell_at(ri, ci));
                    assert(j == cell_at(rj, cj));
                    if same_row(i, j) {
                        if ci < cj {
                            assert(row_conflict(self@, ri, ci, cj));
                        } else {
                            assert(row_conflict(self@, ri, cj, ci));
                        }
                    } else if same_col(i, j) {
                        if ri < rj {
                            assert(col_conflict(self@, ci, ri, rj));
                        } else {
                            assert(col_conflict(self@, ci, rj, ri));
                        }
                    } else {
                        assert(same_box(i, j));
                        lemma_box_cell_inverse(i);
                        lemma_box_cell_inverse(j);
                        assert(box_of(i) == box_of(j));
                        if box_pos(i) < box_pos(j) {
                            assert(box_conflict(self@, box_of(i), box_pos(i), box_pos(j)));
                        } else {
                            assert(box_pos(i) != box_pos(j));
                            assert(box_conflict(self@, box_of(i), box_pos(j), box_pos(i)));
                        }
                    }
                }
            }
        }
        false
    }

    /// True exactly when the board is a finished, valid solution: every
    /// cell is solved and no row, column, or box repeats a digit.  Row and
    /// column sums serve as a cheap intermediate test: a complete board
    /// with a wrong sum necessarily repeats a digit in that unit.
    pub fn is_correct(&self) -> (res: bool)
        requires
            self.wf(),
        ensures
            res == (grid_complete(self@) && !has_conflict(self@)),
    {
        let mut i: usize = 0;
        while i < 81
            invariant
                self.wf(),
                i <= 81,
                forall|k: int| 0 <= k < i ==> (#[trigger] self@[k]).len() == 1,
            decreases 81 - i,
        {
            if self.dom_len(i) != 1 {
                return false;
            }
            i = i + 1;
        }
        let ghost a = grid_values(self@);
        let mut c: usize = 0;
        while c < 9
            invariant
                self.wf(),
                grid_complete(self@),
                a == grid_values(self@),
                c <= 9,
            decreases 9 - c,
        {
            let ghost cv = col_vals(a, c as int);
            proof {
                assert forall|r: int| 0 <= r < 9 implies 1 <= #[trigger] cv[r] <= 9 by {
                    lemma_cell_at(r, c as int);
                    assert(cv[r] == self@[cell_at(r, c as int)][0]);
                }
            }
            let mut sum: u32 = 0;
            let mut r: usize = 0;
            while r < 9
                invariant
                    self.wf(),
                    grid_complete(self@),
                    a == grid_values(self@),
                    c < 9,
                    cv == col_vals(a, c as int),
                    r <= 9,
                    sum == seq_sum(cv.take(r as int)),
                    sum <= 9 * r,
                decreases 9 - r,
            {
                let v = self.dom_get(r * 9 + c, 0);
                proof {
                    lemma_cell_at(r as int, c as int);
                    assert(cv[r as int] == v);
                    assert(cv.take(r + 1).drop_last() =~= cv.take(r as int));
                    assert(cv.take(r + 1).last() == cv[r as int]);
                    assert(1 <= v <= 9);
                }
                sum = sum + v as u32;
                r = r + 1;
            }
            proof {
                assert(cv.take(9) =~= cv);
            }
            if sum != 45 {
                proof {
                    assert(digits_in_range(cv));
                    if distinct_seq(cv) {
                        lemma_nine_distinct_digits(cv);
                    }
                    let (j, k) = choose|j: int, k: int|
                        0 <= j < k < 9 && #[trigger] cv[j] == #[trigger] cv[k];
                    lemma_cell_at(j, c as int);
                    lemma_cell_at(k, c as int);
                    assert(conflict_at(self@, cell_at(j, c as int), cell_at(k, c as int)));
                }
                return false;
            }
            c = c + 1;
        }
        let mut r: usize = 0;
        while r < 9
            invariant
                self.wf(),
                grid_complete(self@),
                a == grid_values(self@),
                r <= 9,
            decreases 9 - r,
        {
            let ghost rv = row_vals(a, r as int);
            proof {
                assert forall|c0: int| 0 <= c0 < 9 implies 1 <= #[trigger] rv[c0] <= 9 by {
                    lemma_cell_at(r as int, c0);
                    assert(rv[c0] == self@[cell_at(r as int, c0)][0]);
                }
            }
            let mut sum: u32 = 0;
            let mut c2: usize = 0;
            while c2 < 9
                invariant
                    self.wf(),
                    grid_complete(self@),
                    a == grid_values(self@),
                    r < 9,
                    rv == row_vals(a, r as int),
                    c2 <= 9,
                    sum == seq_sum(rv.take(c2 as int)),
                    sum <= 9 * c2,
                decreases 9 - c2,
            {
                let v = self.dom_get(r * 9 + c2, 0);
                proof {
                    lemma_cell_at(r as int, c2 as int);
                    assert(rv[c2 as int] == v);
                    assert(rv.take(c2 + 1).drop_last() =~= rv.take(c2 as int));
                    assert(rv.take(c2 + 1).last() == rv[c2 as int]);
                    assert(1 <= v <= 9);
                }
                sum = sum + v as u32;
                c2 = c2 + 1;
            }
            proof {
                assert(rv.take(9) =~= rv);
            }
            if sum != 45 {
                proof {
                    assert(digits_in_range(rv));
                    if distinct_seq(rv) {
                        lemma_nine_distinct_digits(rv);
                    }
                    let (j, k) = choose|j: int, k: int|
                        0 <= j < k < 9 && #[trigger] rv[j] == #[trigger] rv[k];
                    lemma_cell_at(r as int, j);
                    lemma_cell_at(r as int, k);
                    assert(conflict_at(self@, cell_at(r as int, j), cell_at(r as int, k)));
                }
                return false;
            }
            r = r + 1;
        }
        !self.has_unresolvable_conflicts()
    }

    /// Scans box `b` for a solved duplicated digit.
    fn box_has_conflict(&self, b: usize) -> (res: bool)
        requires
            self.wf(),
            b < 9,
        ensures
            res == exists|t1: int, t2: int| #[trigger] box_conflict(self@, b as int, t1, t2),
    {
        let base = (b / 3) * 27 + (b % 3) * 3;
        let mut t1: usize = 0;
        while t1 < 9
            invariant
                self.wf(),
                b < 9,
                base == (b / 3) * 27 + (b % 3) * 3,
                t1 <= 9,
                forall|a: int, t2: int|
                    0 <= a < t1 && a < t2 < 9 ==> !#[trigger] box_conflict(self@, b as int, a, t2),
            decreases 9 - t1,
        {
            let i1 = base + (t1 / 3) * 9 + t1 % 3;
            proof {
                lemma_box_cell(b as int, t1 as int);
                assert(i1 == box_cell(b as int, t1 as int));
            }
            if self.dom_len(i1) == 1 {
                let v1 = self.dom_get(i1, 0);
                let mut t2: usize = t1 + 1;
                while t2 < 9
                    invariant
                        self.wf(),
                        b < 9,
                        base == (b / 3) * 27 + (b % 3) * 3,
                        t1 < 9,
                        t1 < t2 <= 9,
                        i1 == box_cell(b as int, t1 as int),
                        0 <= i1 < 81,
                        self@[i1 as int].len() == 1,
                        v1 == self@[i1 as int][0],
                        forall|u: int|
                            t1 < u < t2 ==> !#[trigger] box_conflict(
                                self@,
                                b as int,
                                t1 as int,
                                u,
                            ),
                    decreases 9 - t2,
                {
                    let i2 = base + (t2 / 3) * 9 + t2 % 3;
                    proof {
                        lemma_box_cell(b as int, t2 as int);
                        assert(i2 == box_cell(b as int, t2 as int));
                    }
                    if self.dom_len(i2) == 1 {
                        if self.dom_get(i2, 0) == v1 {
                            assert(box_conflict(self@, b as int, t1 as int, t2 as int));
                            return true;
                        }
                    }
                    t2 = t2 + 1;
                }
            }
            t1 = t1 + 1;
        }
        proof {
            assert forall|t1: int, t2: int| !box_conflict(self@, b as int, t1, t2) by {
                if box_conflict(self@, b as int, t1, t2) {
                    assert(0 <= t1 < t2 < 9);
                }
            }
        }
        false
    }
}

/// The cells at `base + step * k1` and `base + step * k2` are solved to
/// the same digit.
pub open spec fn unit_pair_conflict(g: Seq<Seq<u8>>, base: int, step: int, k1: int, k2: int) -> bool {
    &&& g[base + step * k1].len() == 1
    &&& g[base + step * k2].len() == 1
    &&& g[base + step * k1][0] == g[base + step * k2][0]
}

} // verus!
