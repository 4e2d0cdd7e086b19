//! Mathematical model of a 9x9 Sudoku board.
//!
//! A board is modelled as a flat sequence of 81 candidate domains in
//! row-major order; each domain is the strictly increasing sequence of the
//! digits still considered possible for that cell.  A completed board is
//! modelled as a flat sequence of 81 digits.

use vstd::prelude::*;

verus! {

/// Flat index of the cell in row `r`, column `c`.
pub open spec fn cell_at(r: int, c: int) -> int {
    r * 9 + c
}

/// Row of the cell with flat index `i`.
pub open spec fn row_of(i: int) -> int {
    i / 9
}

/// Column of the cell with flat index `i`.
pub open spec fn col_of(i: int) -> int {
    i % 9
}

/// The two cells share a row.
pub open spec fn same_row(i: int, j: int) -> bool {
    row_of(i) == row_of(j)
}

/// The two cells share a column.
pub open spec fn same_col(i: int, j: int) -> bool {
    col_of(i) == col_of(j)
}

/// The two cells share a 3x3 box.
pub open spec fn same_box(i: int, j: int) -> bool {
    row_of(i) / 3 == row_of(j) / 3 && col_of(i) / 3 == col_of(j) / 3
}

/// The 3x3 box (0..9, row-major) that cell `i` lies in.
pub open spec fn box_of(i: int) -> int {
    (row_of(i) / 3) * 3 + col_of(i) / 3
}

/// Position of cell `i` within its box (0..9, row-major).
pub open spec fn box_pos(i: int) -> int {
    (row_of(i) % 3) * 3 + col_of(i) % 3
}

/// Flat index of the `t`-th cell (row-major) of box `b`.
pub open spec fn box_cell(b: int, t: int) -> int {
    ((b / 3) * 3 + t / 3) * 9 + (b % 3) * 3 + t % 3
}

/// The box cells lie in range, and distinct positions of one box are
/// distinct peer cells of that box.
pub proof fn lemma_box_cell(b: int, t: int)
    requires
        0 <= b < 9,
        0 <= t < 9,
    ensures
        0 <= box_cell(b, t) < 81,
        row_of(box_cell(b, t)) == (b / 3) * 3 + t / 3,
        col_of(box_cell(b, t)) == (b % 3) * 3 + t % 3,
        box_of(box_cell(b, t)) == b,
        box_pos(box_cell(b, t)) == t,
{
}

/// Every cell is the `box_pos`-th cell of its box.
pub proof fn lemma_box_cell_inverse(i: int)
    requires
        0 <= i < 81,
    ensures
        0 <= box_of(i) < 9,
        0 <= box_pos(i) < 9,
        box_cell(box_of(i), box_pos(i)) == i,
{
}

/// The two cells are distinct peers: they share a row, a column, or a box.
pub open spec fn same_unit(i: int, j: int) -> bool {
    i != j && (same_row(i, j) || same_col(i, j) || same_box(i, j))
}

/// A strictly increasing sequence of digits 1..=9 (possibly empty).
pub open spec fn dom_sorted(d: Seq<u8>) -> bool {
    &&& forall|k: int| 0 <= k < d.len() ==> 1 <= #[trigger] d[k] <= 9
    &&& forall|j: int, k: int| 0 <= j < k < d.len() ==> d[j] < d[k]
}

/// A well-formed candidate domain: nonempty, strictly increasing, digits 1..=9.
pub open spec fn dom_wf(d: Seq<u8>) -> bool {
    d.len() >= 1 && dom_sorted(d)
}

/// A well-formed candidate board: 81 well-formed domains.
pub open spec fn grid_wf(g: Seq<Seq<u8>>) -> bool {
    &&& g.len() == 81
    &&& forall|i: int| 0 <= i < 81 ==> dom_wf(#[trigger] g[i])
}

/// Every cell has been narrowed to a single digit.
pub open spec fn grid_complete(g: Seq<Seq<u8>>) -> bool {
    forall|i: int| 0 <= i < 81 ==> (#[trigger] g[i]).len() == 1
}

/// Cells `i` and `j` are solved peers holding the same digit.
pub open spec fn conflict_at(g: Seq<Seq<u8>>, i: int, j: int) -> bool {
    &&& 0 <= i < 81 && 0 <= j < 81
    &&& same_unit(i, j)
    &&& g[i].len() == 1 && g[j].len() == 1
    &&& g[i][0] == g[j][0]
}

/// Some two solved peers hold the same digit.
pub open spec fn has_conflict(g: Seq<Seq<u8>>) -> bool {
    exists|i: int, j: int| conflict_at(g, i, j)
}

/// The board is a solution: complete, well-formed, and free of conflicts.
pub open spec fn is_solution(g: Seq<Seq<u8>>) -> bool {
    grid_wf(g) && grid_complete(g) && !has_conflict(g)
}

/// The digits of a complete board, cell by cell.
pub open spec fn grid_values(g: Seq<Seq<u8>>) -> Seq<u8> {
    Seq::new(81, |i: int| g[i][0])
}

/// A valid completed assignment: 81 digits 1..=9, no digit repeated
/// within a row, column, or box.
pub open spec fn valid_values(a: Seq<u8>) -> bool {
    &&& a.len() == 81
    &&& forall|i: int| 0 <= i < 81 ==> 1 <= #[trigger] a[i] <= 9
    &&& forall|i: int, j: int| 0 <= i < 81 && 0 <= j < 81 && same_unit(i, j) ==> a[i] != a[j]
}

/// Assignment `a` is a valid completion that the board `g` still allows.
pub open spec fn solves(a: Seq<u8>, g: Seq<Seq<u8>>) -> bool {
    &&& valid_values(a)
    &&& g.len() == 81
    &&& forall|i: int| 0 <= i < 81 ==> (#[trigger] g[i]).contains(a[i])
}

/// Assignment `a` agrees with every given (non-zero) digit of the puzzle.
pub open spec fn matches_givens(a: Seq<u8>, nums: Seq<u8>) -> bool {
    forall|i: int| 0 <= i < 81 && nums[i] != 0 ==> a[i] == #[trigger] nums[i]
}

/// The puzzle given by `nums` (0 = blank) admits a valid completion.
pub open spec fn solvable(nums: Seq<u8>) -> bool {
    exists|a: Seq<u8>| valid_values(a) && matches_givens(a, nums)
}

/// Every candidate of every cell of `g2` is also a candidate in `g1`.
pub open spec fn grid_subset(g2: Seq<Seq<u8>>, g1: Seq<Seq<u8>>) -> bool {
    forall|i: int, d: u8| 0 <= i < 81 && #[trigger] g2[i].contains(d) ==> g1[i].contains(d)
}

/// The digit of the solved cell `c` appears in no peer's domain.
pub open spec fn cell_clean(g: Seq<Seq<u8>>, c: int) -> bool {
    forall|j: int| 0 <= j < 81 && #[trigger] same_unit(j, c) ==> !g[j].contains(g[c][0])
}

/// The board is propagation-closed: every solved cell's digit has been
/// eliminated from all of its peers.
pub open spec fn propagation_closed(g: Seq<Seq<u8>>) -> bool {
    forall|c: int| 0 <= c < 81 && g[c].len() == 1 ==> #[trigger] cell_clean(g, c)
}

/// Every given (non-zero) digit of the puzzle sits in its cell as the
/// committed singleton.
pub open spec fn givens_committed(g: Seq<Seq<u8>>, nums: Seq<u8>) -> bool {
    forall|k: int| 0 <= k < 81 && nums[k] != 0 ==> #[trigger] g[k] == seq![nums[k]]
}

/// Number of candidates in cells `i..81`; measure for termination proofs.
pub open spec fn count_from(g: Seq<Seq<u8>>, i: int) -> int
    decreases 81 - i,
{
    if i < 0 || i >= 81 {
        0
    } else {
        g[i].len() + count_from(g, i + 1)
    }
}

/// Total number of candidates on the board.
pub open spec fn total_count(g: Seq<Seq<u8>>) -> int {
    count_from(g, 0)
}

/// A board whose domains are cellwise no longer has a total count no larger.
pub proof fn lemma_count_from_le(g1: Seq<Seq<u8>>, g2: Seq<Seq<u8>>, i: int)
    requires
        forall|k: int| i <= k < 81 ==> (#[trigger] g2[k]).len() <= (#[trigger] g1[k]).len(),
    ensures
        count_from(g2, i) <= count_from(g1, i),
    decreases 81 - i,
{
    if 0 <= i < 81 {
        lemma_count_from_le(g1, g2, i + 1);
    }
}

/// If in addition some domain in range is strictly smaller, so is the count.
pub proof fn lemma_count_from_lt(g1: Seq<Seq<u8>>, g2: Seq<Seq<u8>>, i: int, j: int)
    requires
        forall|k: int| i <= k < 81 ==> (#[trigger] g2[k]).len() <= (#[trigger] g1[k]).len(),
        i <= j < 81,
        0 <= i,
        g2[j].len() < g1[j].len(),
    ensures
        count_from(g2, i) < count_from(g1, i),
    decreases 81 - i,
{
    if i == j {
        lemma_count_from_le(g1, g2, i + 1);
    } else {
        lemma_count_from_lt(g1, g2, i + 1, j);
    }
}

/// Candidate counts are nonnegative.
pub proof fn lemma_count_from_nonneg(g: Seq<Seq<u8>>, i: int)
    ensures
        count_from(g, i) >= 0,
    decreases 81 - i,
{
    if 0 <= i < 81 {
        lemma_count_from_nonneg(g, i + 1);
    }
}

/// The flat index of a cell lies in range and decomposes back into
/// its row and column.
pub proof fn lemma_cell_at(r: int, c: int)
    requires
        0 <= r < 9,
        0 <= c < 9,
    ensures
        0 <= cell_at(r, c) < 81,
        row_of(cell_at(r, c)) == r,
        col_of(cell_at(r, c)) == c,
{
}

/// In a strictly increasing digit sequence the `k`-th entry is at least `1 + k`.
pub proof fn lemma_sorted_gap(d: Seq<u8>, k: int)
    requires
        dom_sorted(d),
        0 <= k < d.len(),
    ensures
        d[k] >= 1 + k,
    decreases k,
{
    if k > 0 {
        lemma_sorted_gap(d, k - 1);
    }
}

/// A strictly increasing sequence of digits 1..=9 has at most nine entries.
pub proof fn lemma_dom_len_bound(d: Seq<u8>)
    requires
        dom_sorted(d),
    ensures
        d.len() <= 9,
{
    if d.len() > 9 {
        lemma_sorted_gap(d, 9);
    }
}

/// A nonempty, duplicate-free domain whose members all equal `e` is `[e]`.
pub proof fn lemma_subset_of_singleton(d: Seq<u8>, e: u8)
    requires
        dom_wf(d),
        forall|x: u8| d.contains(x) ==> x == e,
    ensures
        d =~= seq![e],
{
    assert(d.contains(d[0]));
    if d.len() >= 2 {
        assert(d.contains(d[1]));
    }
}

} // verus!
