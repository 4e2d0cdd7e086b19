//! Constraint propagation: once a cell is committed to a digit, that digit
//! is removed from every peer, cascading whenever a peer is forced down to
//! a single digit.

use vstd::prelude::*;

use crate::grid::SudokuCandidates;
use crate::model::{
    cell_at, cell_clean, dom_wf, grid_subset, grid_wf, lemma_cell_at, lemma_count_from_lt,
    lemma_count_from_nonneg, lemma_subset_of_singleton, propagation_closed, same_box, same_col,
    same_row, same_unit, solves, total_count,
};

verus! {

/// Every listed cell is a peer of `idx` whose domain still holds `el`.
pub open spec fn dup_list_ok(l: Seq<(usize, usize)>, g: Seq<Seq<u8>>, idx: int, el: u8) -> bool {
    forall|t: int|
        0 <= t < l.len() ==> {
            let r2 = (#[trigger] l[t]).0;
            let c2 = l[t].1;
            &&& r2 < 9
            &&& c2 < 9
            &&& same_unit(cell_at(r2 as int, c2 as int), idx)
            &&& g[cell_at(r2 as int, c2 as int)].contains(el)
        }
}

impl SudokuCandidates {
    /// The column peers of the given cell whose domain still holds `element`.
    pub fn get_duplicates_in_column(
        &self,
        element: u8,
        el_row_idx: usize,
        el_col_idx: usize,
    ) -> (res: Vec<(usize, usize)>)
        requires
            self.wf(),
            el_row_idx < 9,
            el_col_idx < 9,
        ensures
            dup_list_ok(res@, self@, cell_at(el_row_idx as int, el_col_idx as int), element),
            forall|t: int|
                0 <= t < res@.len() ==> {
                    &&& (#[trigger] res@[t]).1 == el_col_idx
                    &&& res@[t].0 < 9
                    &&& res@[t].0 != el_row_idx
                    &&& self@[cell_at(res@[t].0 as int, el_col_idx as int)].contains(element)
                },
            forall|r2: int|
                0 <= r2 < 9 && r2 != el_row_idx && self@[cell_at(r2, el_col_idx as int)].contains(
                    element,
                ) ==> res@.contains((r2 as usize, el_col_idx)),
    {
        let mut duplicates: Vec<(usize, usize)> = Vec::new();
        let mut row_idx: usize = 0;
        while row_idx < 9
            invariant
                self.wf(),
                el_row_idx < 9,
                el_col_idx < 9,
                row_idx <= 9,
                dup_list_ok(
                    duplicates@,
                    self@,
                    cell_at(el_row_idx as int, el_col_idx as int),
                    element,
                ),
                forall|t: int|
                    0 <= t < duplicates@.len() ==> {
                        &&& (#[trigger] duplicates@[t]).1 == el_col_idx
                        &&& duplicates@[t].0 < 9
                        &&& duplicates@[t].0 != el_row_idx
                        &&& self@[cell_at(duplicates@[t].0 as int, el_col_idx as int)].contains(
                            element,
                        )
                    },
                forall|r2: int|
                    0 <= r2 < row_idx && r2 != el_row_idx && self@[cell_at(
                        r2,
                        el_col_idx as int,
                    )].contains(element) ==> duplicates@.contains((r2 as usize, el_col_idx)),
            decreases 9 - row_idx,
        {
            if row_idx != el_row_idx {
                proof {
                    lemma_cell_at(row_idx as int, el_col_idx as int);
                    lemma_cell_at(el_row_idx as int, el_col_idx as int);
                }
                if self.dom_contains(row_idx * 9 + el_col_idx, element) {
                    let ghost before = duplicates@;
                    duplicates.push((row_idx, el_col_idx));
                    assert(duplicates@[before.len() as int] == (row_idx, el_col_idx));
                    assert(forall|t: int|
                        0 <= t < before.len() ==> duplicates@[t] == before[t]);
                }
            }
            row_idx = row_idx + 1;
        }
        duplicates
    }

    /// The row peers of the given cell whose domain still holds `element`.
    pub fn get_duplicates_in_row(
        &self,
        element: u8,
        el_row_idx: usize,
        el_col_idx: usize,
    ) -> (res: Vec<(usize, usize)>)
        requires
            self.wf(),
            el_row_idx < 9,
            el_col_idx < 9,
        ensures
            dup_list_ok(res@, self@, cell_at(el_row_idx as int, el_col_idx as int), element),
            forall|t: int|
                0 <= t < res@.len() ==> {
                    &&& (#[trigger] res@[t]).0 == el_row_idx
                    &&& res@[t].1 < 9
                    &&& res@[t].1 != el_col_idx
                    &&& self@[cell_at(el_row_idx as int, res@[t].1 as int)].contains(element)
                },
            forall|c2: int|
                0 <= c2 < 9 && c2 != el_col_idx && self@[cell_at(el_row_idx as int, c2)].contains(
                    element,
                ) ==> res@.contains((el_row_idx, c2 as usize)),
    {
        let mut duplicates: Vec<(usize, usize)> = Vec::new();
        let mut col_idx: usize = 0;
        while col_idx < 9
            invariant
                self.wf(),
                el_row_idx < 9,
                el_col_idx < 9,
                col_idx <= 9,
                dup_list_ok(
                    duplicates@,
                    self@,
                    cell_at(el_row_idx as int, el_col_idx as int),
                    element,
                ),
                forall|t: int|
                    0 <= t < duplicates@.len() ==> {
                        &&& (#[trigger] duplicates@[t]).0 == el_row_idx
                        &&& duplicates@[t].1 < 9
                        &&& duplicates@[t].1 != el_col_idx
                        &&& self@[cell_at(el_row_idx as int, duplicates@[t].1 as int)].contains(
                            element,
                        )
                    },
                forall|c2: int|
                    0 <= c2 < col_idx && c2 != el_col_idx && self@[cell_at(
                        el_row_idx as int,
                        c2,
                    )].contains(element) ==> duplicates@.contains((el_row_idx, c2 as usize)),
            decreases 9 - col_idx,
        {
            if col_idx != el_col_idx {
                proof {
                    lemma_cell_at(el_row_idx as int, col_idx as int);
                    lemma_cell_at(el_row_idx as int, el_col_idx as int);
                }
                if self.dom_contains(el_row_idx * 9 + col_idx, element) {
                    let ghost before = duplicates@;
                    duplicates.push((el_row_idx, col_idx));
                    assert(duplicates@[before.len() as int] == (el_row_idx, col_idx));
                    assert(forall|t: int|
                        0 <= t < before.len() ==> duplicates@[t] == before[t]);
                }
            }
            col_idx = col_idx + 1;
        }
        duplicates
    }

    /// The box peers of the given cell whose domain still holds `element`.
    pub fn get_duplicates_in_cell(
        &self,
        element: u8,
        el_row_idx: usize,
        el_col_idx: usize,
    ) -> (res: Vec<(usize, usize)>)
        requires
            self.wf(),
            el_row_idx < 9,
            el_col_idx < 9,
        ensures
            dup_list_ok(res@, self@, cell_at(el_row_idx as int, el_col_idx as int), element),
            forall|t: int|
                0 <= t < res@.len() ==> {
                    &&& (#[trigger] res@[t]).0 < 9
                    &&& res@[t].1 < 9
                    &&& res@[t].0 as int / 3 == el_row_idx as int / 3
                    &&& res@[t].1 as int / 3 == el_col_idx as int / 3
                    &&& !(res@[t].0 == el_row_idx && res@[t].1 == el_col_idx)
                    &&& self@[cell_at(res@[t].0 as int, res@[t].1 as int)].contains(element)
                },
            forall|r2: int, c2: int|
                0 <= r2 < 9 && 0 <= c2 < 9 && !(r2 == el_row_idx && c2 == el_col_idx) && r2 / 3
                    == el_row_idx as int / 3 && c2 / 3 == el_col_idx as int / 3 && self@[cell_at(
                    r2,
                    c2,
                )].contains(element) ==> res@.contains((r2 as usize, c2 as usize)),
    {
        let cell_row_idx = el_row_idx / 3;
        let cell_col_idx = el_col_idx / 3;
        let mut duplicates: Vec<(usize, usize)> = Vec::new();
        let mut t: usize = 0;
        while t < 9
            invariant
                self.wf(),
                el_row_idx < 9,
                el_col_idx < 9,
                cell_row_idx == el_row_idx / 3,
                cell_col_idx == el_col_idx / 3,
                t <= 9,
                dup_list_ok(
                    duplicates@,
                    self@,
                    cell_at(el_row_idx as int, el_col_idx as int),
                    element,
                ),
                forall|t2: int|
                    0 <= t2 < duplicates@.len() ==> {
                        &&& (#[trigger] duplicates@[t2]).0 < 9
                        &&& duplicates@[t2].1 < 9
                        &&& duplicates@[t2].0 as int / 3 == el_row_idx as int / 3
                        &&& duplicates@[t2].1 as int / 3 == el_col_idx as int / 3
                        &&& !(duplicates@[t2].0 == el_row_idx && duplicates@[t2].1 == el_col_idx)
                        &&& self@[cell_at(
                            duplicates@[t2].0 as int,
                            duplicates@[t2].1 as int,
                        )].contains(element)
                    },
                forall|r2: int, c2: int|
                    0 <= r2 < 9 && 0 <= c2 < 9 && !(r2 == el_row_idx && c2 == el_col_idx) && r2 / 3
                        == el_row_idx as int / 3 && c2 / 3 == el_col_idx as int / 3 && (r2 - (
                    el_row_idx as int / 3) * 3) * 3 + (c2 - (el_col_idx as int / 3) * 3) < t
                        && self@[cell_at(r2, c2)].contains(element) ==> duplicates@.contains(
                        (r2 as usize, c2 as usize),
                    ),
            decreases 9 - t,
        {
            let row_idx = cell_row_idx * 3 + t / 3;
            let col_idx = cell_col_idx * 3 + t % 3;
            if !(row_idx == el_row_idx && col_idx == el_col_idx) {
                proof {
                    lemma_cell_at(row_idx as int, col_idx as int);
                    lemma_cell_at(el_row_idx as int, el_col_idx as int);
                }
                if self.dom_contains(row_idx * 9 + col_idx, element) {
                    let ghost before = duplicates@;
                    duplicates.push((row_idx, col_idx));
                    assert(duplicates@[before.len() as int] == (row_idx, col_idx));
                    assert(forall|t2: int|
                        0 <= t2 < before.len() ==> duplicates@[t2] == before[t2]);
                }
            }
            t = t + 1;
        }
        duplicates
    }

    /// All peers (row, column, and box) of the given cell whose domain
    /// still holds `element`.  Peers shared between scans may be listed
    /// twice; removal is idempotent, so this is harmless.
    pub fn get_duplicates(&self, element: u8, el_row_idx: usize, el_col_idx: usize) -> (res: Vec<
        (usize, usize),
    >)
        requires
            self.wf(),
            el_row_idx < 9,
            el_col_idx < 9,
        ensures
            dup_list_ok(res@, self@, cell_at(el_row_idx as int, el_col_idx as int), element),
            forall|j: int|
                0 <= j < 81 && same_unit(j, cell_at(el_row_idx as int, el_col_idx as int))
                    && self@[j].contains(element) ==> res@.contains(
                    ((j / 9) as usize, (j % 9) as usize),
                ),
    {
        let mut duplicates = self.get_duplicates_in_row(element, el_row_idx, el_col_idx);
        let mut col_duplicates = self.get_duplicates_in_column(element, el_row_idx, el_col_idx);
        let mut cell_duplicates = self.get_duplicates_in_cell(element, el_row_idx, el_col_idx);
        let ghost row_part = duplicates@;
        let ghost col_part = col_duplicates@;
        let ghost cell_part = cell_duplicates@;
        duplicates.append(&mut col_duplicates);
        duplicates.append(&mut cell_duplicates);
        proof {
            let idx = cell_at(el_row_idx as int, el_col_idx as int);
            lemma_cell_at(el_row_idx as int, el_col_idx as int);
            assert(duplicates@ =~= row_part + col_part + cell_part);
            assert forall|j: int|
                0 <= j < 81 && same_unit(j, idx) && self@[j].contains(element) implies duplicates@
                .contains(((j / 9) as usize, (j % 9) as usize)) by {
                let r2 = j / 9;
                let c2 = j % 9;
                assert(j == cell_at(r2, c2));
                lemma_cell_at(r2, c2);
                if same_row(j, idx) {
                    assert(r2 == el_row_idx as int);
                    assert(c2 != el_col_idx as int);
                    assert(row_part.contains((el_row_idx, c2 as usize)));
                    let p = choose|p: int|
                        0 <= p < row_part.len() && row_part[p] == (el_row_idx, c2 as usize);
                    assert(duplicates@[p] == (el_row_idx, c2 as usize));
                    assert(duplicates@.contains((el_row_idx, c2 as usize)));
                } else if same_col(j, idx) {
                    assert(c2 == el_col_idx as int);
                    assert(r2 != el_row_idx as int);
                    assert(col_part.contains((r2 as usize, el_col_idx)));
                    let p = choose|p: int|
                        0 <= p < col_part.len() && col_part[p] == (r2 as usize, el_col_idx);
                    assert(duplicates@[row_part.len() + p] == (r2 as usize, el_col_idx));
                    assert(duplicates@.contains((r2 as usize, el_col_idx)));
                } else {
                    assert(same_box(j, idx));
                    assert(cell_part.contains((r2 as usize, c2 as usize)));
                    let p = choose|p: int|
                        0 <= p < cell_part.len() && cell_part[p] == (r2 as usize, c2 as usize);
                    assert(duplicates@[row_part.len() + col_part.len() + p] == (
                        r2 as usize,
                        c2 as usize,
                    ));
                    assert(duplicates@.contains((r2 as usize, c2 as usize)));
                }
            }
        }
        duplicates
    }
}

/// Removes `el` from every peer of the committed cell, cascading on every
/// peer that this forces down to a single digit: each newly solved cell
/// comes out clean, its digit eliminated from its own peers in turn, and
/// every well-formed propagation-closed refinement of the board survives
/// untouched.  Returns `None` exactly when some domain would become empty,
/// in which case no such refinement and no completion exists at all.
pub fn remove_duplicates(
    problem: &SudokuCandidates,
    el_row_idx: usize,
    el_col_idx: usize,
    el: u8,
) -> (res: Option<SudokuCandidates>)
    requires
        problem.wf(),
        el_row_idx < 9,
        el_col_idx < 9,
        problem@[cell_at(el_row_idx as int, el_col_idx as int)] == seq![el],
    ensures
        match res {
            Some(g2) => {
                &&& g2.wf()
                &&& grid_subset(g2@, problem@)
                &&& forall|i: int|
                    0 <= i < 81 ==> (#[trigger] g2@[i]).len() <= problem@[i].len()
                &&& g2@[cell_at(el_row_idx as int, el_col_idx as int)] == seq![el]
                &&& forall|j: int|
                    0 <= j < 81 && same_unit(j, cell_at(el_row_idx as int, el_col_idx as int))
                        ==> !(#[trigger] g2@[j]).contains(el)
                &&& forall|c: int|
                    0 <= c < 81 && g2@[c].len() == 1 && (c == cell_at(
                        el_row_idx as int,
                        el_col_idx as int,
                    ) || problem@[c].len() != 1 || cell_clean(problem@, c))
                        ==> #[trigger] cell_clean(g2@, c)
                &&& forall|g: Seq<Seq<u8>>|
                    grid_wf(g) && propagation_closed(g) && #[trigger] grid_subset(g, problem@)
                        ==> grid_subset(g, g2@)
                &&& forall|a: Seq<u8>| #[trigger] solves(a, problem@) ==> solves(a, g2@)
            },
            None => {
                &&& forall|a: Seq<u8>| !solves(a, problem@)
                &&& forall|g: Seq<Seq<u8>>|
                    !(grid_wf(g) && propagation_closed(g) && #[trigger] grid_subset(g, problem@))
            },
        },
    decreases total_count(problem@),
{
    let ghost idx = cell_at(el_row_idx as int, el_col_idx as int);
    proof {
        lemma_cell_at(el_row_idx as int, el_col_idx as int);
        assert(dom_wf(problem@[idx]));
        assert(problem@[idx][0] == el);
    }
    let duplicates = problem.get_duplicates(el, el_row_idx, el_col_idx);
    let mut current = problem.clone();
    let mut k: usize = 0;
    while k < duplicates.len()
        invariant
            problem.wf(),
            el_row_idx < 9,
            el_col_idx < 9,
            idx == cell_at(el_row_idx as int, el_col_idx as int),
            0 <= idx < 81,
            problem@[idx] == seq![el],
            1 <= el <= 9,
            dup_list_ok(duplicates@, problem@, idx, el),
            k <= duplicates@.len(),
            current.wf(),
            grid_subset(current@, problem@),
            forall|i: int| 0 <= i < 81 ==> (#[trigger] current@[i]).len() <= problem@[i].len(),
            current@[idx] == seq![el],
            forall|t: int|
                0 <= t < k ==> !current@[cell_at(
                    (#[trigger] duplicates@[t]).0 as int,
                    duplicates@[t].1 as int,
                )].contains(el),
            forall|c: int|
                0 <= c < 81 && current@[c].len() == 1 && c != idx && (problem@[c].len() != 1
                    || cell_clean(problem@, c)) ==> #[trigger] cell_clean(current@, c),
            forall|g: Seq<Seq<u8>>|
                grid_wf(g) && propagation_closed(g) && #[trigger] grid_subset(g, problem@)
                    ==> grid_subset(g, current@),
            forall|a: Seq<u8>| #[trigger] solves(a, problem@) ==> solves(a, current@),
        decreases duplicates@.len() - k,
    {
        let pair = duplicates[k];
        let dup_row = pair.0;
        let dup_col = pair.1;
        let dup_idx = dup_row * 9 + dup_col;
        proof {
            lemma_cell_at(dup_row as int, dup_col as int);
            assert(same_unit(dup_idx as int, idx));
        }
        let ghost prev = current@;
        let removed = current.remove_from_cell(dup_idx, el);
        if removed {
            proof {
                // A completion of `prev` places `el` at the committed cell,
                // so it cannot place `el` at the peer; the removal keeps it.
                assert forall|a: Seq<u8>| solves(a, prev) implies solves(a, current@) by {
                    assert(prev[idx].contains(a[idx]));
                    assert(a[idx] == el);
                    assert(a[dup_idx as int] != el);
                    assert(prev[dup_idx as int].contains(a[dup_idx as int]));
                    assert(current@[dup_idx as int].contains(a[dup_idx as int]));
                    assert forall|i: int| 0 <= i < 81 implies (#[trigger] current@[i]).contains(
                        a[i],
                    ) by {
                        if i != dup_idx {
                            assert(current@[i] == prev[i]);
                        }
                    }
                }
                // A closed subgrid also commits `el`, so its peer domain
                // never held `el`; the removal keeps it inside.
                assert forall|g: Seq<Seq<u8>>|
                    grid_wf(g) && propagation_closed(g) && #[trigger] grid_subset(
                        g,
                        problem@,
                    ) implies grid_subset(g, current@) by {
                    assert(grid_subset(g, prev));
                    assert forall|x: u8| g[idx].contains(x) implies x == el by {
                        assert(problem@[idx].contains(x));
                    }
                    lemma_subset_of_singleton(g[idx], el);
                    assert(g[idx].len() == 1);
                    assert(cell_clean(g, idx));
                    assert(same_unit(dup_idx as int, idx));
                    assert(!g[dup_idx as int].contains(el));
                    assert forall|i: int, d: u8|
                        0 <= i < 81 && #[trigger] g[i].contains(d) implies current@[i].contains(
                        d,
                    ) by {
                        assert(prev[i].contains(d));
                        if i == dup_idx {
                            assert(d != el);
                        }
                    }
                }
                // Cleanliness of other solved cells survives the removal:
                // their digit and their peers' memberships are untouched.
                assert forall|c: int|
                    0 <= c < 81 && current@[c].len() == 1 && c != idx && c != dup_idx && (
                    problem@[c].len() != 1 || cell_clean(problem@, c)) implies #[trigger] cell_clean(
                    current@,
                    c,
                ) by {
                    assert(current@[c] == prev[c]);
                    assert(cell_clean(prev, c));
                    assert forall|j: int|
                        0 <= j < 81 && #[trigger] same_unit(j, c) implies !current@[j].contains(
                        current@[c][0],
                    ) by {
                        if j != dup_idx {
                            assert(current@[j] == prev[j]);
                        } else {
                            if current@[j].contains(prev[c][0]) {
                                assert(prev[j].contains(prev[c][0]));
                            }
                        }
                    }
                }
            }
            let n = current.dom_len(dup_idx);
            if n == 0 {
                proof {
                    assert forall|a: Seq<u8>| !solves(a, problem@) by {
                        if solves(a, problem@) {
                            assert(solves(a, current@));
                            assert(current@[dup_idx as int].contains(a[dup_idx as int]));
                        }
                    }
                    // An emptied domain rules out every closed subgrid:
                    // its cell there would have to be nonempty.
                    assert forall|g: Seq<Seq<u8>>|
                        !(grid_wf(g) && propagation_closed(g) && #[trigger] grid_subset(
                            g,
                            problem@,
                        )) by {
                        if grid_wf(g) && propagation_closed(g) && grid_subset(g, problem@) {
                            assert(grid_subset(g, current@));
                            assert(g[dup_idx as int].contains(g[dup_idx as int][0]));
                            assert(current@[dup_idx as int].contains(g[dup_idx as int][0]));
                        }
                    }
                }
                return None;
            }
            if n == 1 {
                let d2 = current.dom_get(dup_idx, 0);
                proof {
                    assert(dom_wf(current@[dup_idx as int]));
                    assert(current@[dup_idx as int] =~= seq![d2]);
                    lemma_count_from_lt(problem@, current@, 0, dup_idx as int);
                    lemma_count_from_nonneg(problem@, 0);
                    lemma_count_from_nonneg(current@, 0);
                }
                let next = remove_duplicates(&current, dup_row, dup_col, d2);
                match next {
                    Some(g2) => {
                        proof {
                            assert(grid_subset(g2@, current@));
                            assert forall|x: u8| g2@[idx].contains(x) implies x == el by {
                                assert(current@[idx].contains(x));
                            }
                            lemma_subset_of_singleton(g2@[idx], el);
                            assert(g2@[idx] == seq![el]);
                            assert forall|t: int| 0 <= t <= k implies !g2@[cell_at(
                                (#[trigger] duplicates@[t]).0 as int,
                                duplicates@[t].1 as int,
                            )].contains(el) by {
                                let j = cell_at(
                                    duplicates@[t].0 as int,
                                    duplicates@[t].1 as int,
                                );
                                lemma_cell_at(duplicates@[t].0 as int, duplicates@[t].1 as int);
                                if g2@[j].contains(el) {
                                    assert(current@[j].contains(el));
                                }
                            }
                            // Closed subgrids pass through the cascade.
                            assert forall|g: Seq<Seq<u8>>|
                                grid_wf(g) && propagation_closed(g) && #[trigger] grid_subset(
                                    g,
                                    problem@,
                                ) implies grid_subset(g, g2@) by {
                                assert(grid_subset(g, current@));
                            }
                            // Cleanliness passes through the cascade: the
                            // forced peer is cleaned by its own call, and
                            // other solved cells stay clean.
                            assert forall|c: int|
                                0 <= c < 81 && g2@[c].len() == 1 && c != idx && (
                                problem@[c].len() != 1 || cell_clean(problem@, c))
                                implies #[trigger] cell_clean(g2@, c) by {
                                if c != dup_idx && current@[c].len() == 1 {
                                    assert(cell_clean(current@, c));
                                }
                            }
                        }
                        current = g2;
                    },
                    None => {
                        proof {
                            assert forall|a: Seq<u8>| !solves(a, problem@) by {
                                if solves(a, problem@) {
                                    assert(solves(a, current@));
                                }
                            }
                            assert forall|g: Seq<Seq<u8>>|
                                !(grid_wf(g) && propagation_closed(g) && #[trigger] grid_subset(
                                    g,
                                    problem@,
                                )) by {
                                if grid_wf(g) && propagation_closed(g) && grid_subset(
                                    g,
                                    problem@,
                                ) {
                                    assert(grid_subset(g, current@));
                                }
                            }
                        }
                        return None;
                    },
                }
            }
        }
        proof {
            assert forall|t: int| 0 <= t <= k implies !current@[cell_at(
                (#[trigger] duplicates@[t]).0 as int,
                duplicates@[t].1 as int,
            )].contains(el) by {
                lemma_cell_at(duplicates@[t].0 as int, duplicates@[t].1 as int);
            }
        }
        k = k + 1;
    }
    proof {
        // Every peer that held `el` at entry was listed and cleared; any
        // other peer never held it, and domains only shrank.
        assert forall|j: int| 0 <= j < 81 && same_unit(j, idx) implies !(
        #[trigger] current@[j]).contains(el) by {
            if current@[j].contains(el) {
                assert(problem@[j].contains(el));
                assert(duplicates@.contains(((j / 9) as usize, (j % 9) as usize)));
                let t = choose|t: int|
                    0 <= t < duplicates@.len() && duplicates@[t] == (
                    (j / 9) as usize,
                    (j % 9) as usize,
                );
                assert(cell_at(duplicates@[t].0 as int, duplicates@[t].1 as int) == j);
            }
        }
        assert(cell_clean(current@, idx)) by {
            assert(current@[idx][0] == el);
            assert forall|j: int| 0 <= j < 81 && #[trigger] same_unit(j, idx)
                implies !current@[j].contains(current@[idx][0]) by {}
        }
        assert forall|c: int|
            0 <= c < 81 && current@[c].len() == 1 && (c == idx || problem@[c].len() != 1
                || cell_clean(problem@, c)) implies #[trigger] cell_clean(current@, c) by {}
    }
    Some(current)
}

} // verus!
