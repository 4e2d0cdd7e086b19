//! Counting arguments about sequences of digits: nine pairwise distinct
//! digits from 1..=9 contain every digit exactly once and sum to 45.
//! These facts tie the checker's cheap sum test to real validity, and let
//! the heuristic's naked-single deduction cover every completion.

use vstd::prelude::*;

use crate::model::{box_cell, cell_at, lemma_box_cell, lemma_cell_at, same_unit, valid_values};

verus! {

/// How many entries of `s` equal `d`.
pub open spec fn count_eq(s: Seq<u8>, d: u8) -> int
    decreases s.len(),
{
    if s.len() == 0 {
        0
    } else {
        count_eq(s.drop_last(), d) + if s.last() == d {
            1int
        } else {
            0int
        }
    }
}

/// Sum of the entries of `s`.
pub open spec fn seq_sum(s: Seq<u8>) -> int
    decreases s.len(),
{
    if s.len() == 0 {
        0
    } else {
        seq_sum(s.drop_last()) + s.last()
    }
}

/// No two entries of `s` are equal.
pub open spec fn distinct_seq(s: Seq<u8>) -> bool {
    forall|j: int, k: int| 0 <= j < k < s.len() ==> s[j] != s[k]
}

/// Every entry of `s` is a digit 1..=9.
pub open spec fn digits_in_range(s: Seq<u8>) -> bool {
    forall|k: int| 0 <= k < s.len() ==> 1 <= #[trigger] s[k] <= 9
}

/// Counts are bounded by the length.
pub proof fn lemma_count_bounds(s: Seq<u8>, d: u8)
    ensures
        0 <= count_eq(s, d) <= s.len(),
    decreases s.len(),
{
    if s.len() > 0 {
        lemma_count_bounds(s.drop_last(), d);
    }
}

/// A digit occurs in `s` exactly when its count is positive.
pub proof fn lemma_count_contains(s: Seq<u8>, d: u8)
    ensures
        count_eq(s, d) >= 1 <==> s.contains(d),
    decreases s.len(),
{
    lemma_count_bounds(s, d);
    if s.len() > 0 {
        lemma_count_bounds(s.drop_last(), d);
        lemma_count_contains(s.drop_last(), d);
        if s.last() == d {
            assert(s.contains(d));
        } else if s.drop_last().contains(d) {
            let j = choose|j: int| 0 <= j < s.drop_last().len() && s.drop_last()[j] == d;
            assert(s[j] == d);
            assert(s.contains(d));
        } else if s.contains(d) {
            let j = choose|j: int| 0 <= j < s.len() && s[j] == d;
            assert(j < s.len() - 1);
            assert(s.drop_last()[j] == d);
            assert(s.drop_last().contains(d));
        }
    }
}

/// In a duplicate-free sequence every digit occurs at most once.
pub proof fn lemma_count_distinct(s: Seq<u8>, d: u8)
    requires
        distinct_seq(s),
    ensures
        count_eq(s, d) <= 1,
    decreases s.len(),
{
    if s.len() > 0 {
        assert(distinct_seq(s.drop_last())) by {
            assert(forall|j: int, k: int|
                0 <= j < k < s.drop_last().len() ==> s.drop_last()[j] == s[j] && s.drop_last()[k]
                    == s[k]);
        }
        lemma_count_distinct(s.drop_last(), d);
        if s.last() == d {
            // The last entry is unique, so `d` cannot occur earlier.
            assert(forall|j: int| 0 <= j < s.len() - 1 ==> s[j] != s.last());
            assert(!s.drop_last().contains(d)) by {
                if s.drop_last().contains(d) {
                    let j = choose|j: int|
                        0 <= j < s.drop_last().len() && s.drop_last()[j] == d;
                    assert(s[j] == d);
                }
            }
            lemma_count_contains(s.drop_last(), d);
        }
    }
}

/// The counts of the nine digits partition the length.
pub proof fn lemma_count_partition(s: Seq<u8>)
    requires
        digits_in_range(s),
    ensures
        count_eq(s, 1) + count_eq(s, 2) + count_eq(s, 3) + count_eq(s, 4) + count_eq(s, 5)
            + count_eq(s, 6) + count_eq(s, 7) + count_eq(s, 8) + count_eq(s, 9) == s.len(),
    decreases s.len(),
{
    if s.len() > 0 {
        assert(digits_in_range(s.drop_last())) by {
            assert(forall|k: int| 0 <= k < s.drop_last().len() ==> s.drop_last()[k] == s[k]);
        }
        lemma_count_partition(s.drop_last());
        assert(1 <= s.last() <= 9) by {
            assert(s[s.len() - 1] == s.last());
        }
    }
}

/// The sum is determined by the counts of the nine digits.
pub proof fn lemma_weighted_sum(s: Seq<u8>)
    requires
        digits_in_range(s),
    ensures
        seq_sum(s) == 1 * count_eq(s, 1) + 2 * count_eq(s, 2) + 3 * count_eq(s, 3) + 4 * count_eq(
            s,
            4,
        ) + 5 * count_eq(s, 5) + 6 * count_eq(s, 6) + 7 * count_eq(s, 7) + 8 * count_eq(s, 8) + 9
            * count_eq(s, 9),
    decreases s.len(),
{
    if s.len() > 0 {
        assert(digits_in_range(s.drop_last())) by {
            assert(forall|k: int| 0 <= k < s.drop_last().len() ==> s.drop_last()[k] == s[k]);
        }
        lemma_weighted_sum(s.drop_last());
        assert(1 <= s.last() <= 9) by {
            assert(s[s.len() - 1] == s.last());
        }
    }
}

/// Nine pairwise distinct digits 1..=9 contain every digit exactly once
/// and sum to 45.
pub proof fn lemma_nine_distinct_digits(s: Seq<u8>)
    requires
        s.len() == 9,
        digits_in_range(s),
        distinct_seq(s),
    ensures
        forall|d: u8| 1 <= d <= 9 ==> count_eq(s, d) == 1,
        forall|d: u8| 1 <= d <= 9 ==> s.contains(d),
        seq_sum(s) == 45,
{
    lemma_count_partition(s);
    assert forall|d: u8| 1 <= d <= 9 implies count_eq(s, d) == 1 by {
        lemma_count_distinct(s, d);
        lemma_count_bounds(s, d);
        assert forall|e: u8| 1 <= e <= 9 implies count_eq(s, e) <= 1 by {
            lemma_count_distinct(s, e);
        }
    }
    assert forall|d: u8| 1 <= d <= 9 implies s.contains(d) by {
        lemma_count_contains(s, d);
    }
    lemma_weighted_sum(s);
}

/// Sums of digit sequences are bounded by nine per entry.
pub proof fn lemma_seq_sum_bounds(s: Seq<u8>)
    requires
        digits_in_range(s),
    ensures
        0 <= seq_sum(s) <= 9 * s.len(),
    decreases s.len(),
{
    if s.len() > 0 {
        assert(digits_in_range(s.drop_last())) by {
            assert(forall|k: int| 0 <= k < s.drop_last().len() ==> s.drop_last()[k] == s[k]);
        }
        lemma_seq_sum_bounds(s.drop_last());
        assert(1 <= s.last() <= 9) by {
            assert(s[s.len() - 1] == s.last());
        }
    }
}

/// The digits of row `r` of the completed assignment `a`.
pub open spec fn row_vals(a: Seq<u8>, r: int) -> Seq<u8> {
    Seq::new(9, |c: int| a[cell_at(r, c)])
}

/// The digits of column `c` of the completed assignment `a`.
pub open spec fn col_vals(a: Seq<u8>, c: int) -> Seq<u8> {
    Seq::new(9, |r: int| a[cell_at(r, c)])
}

/// The digits of box `b` of the completed assignment `a`.
pub open spec fn box_vals(a: Seq<u8>, b: int) -> Seq<u8> {
    Seq::new(9, |t: int| a[box_cell(b, t)])
}

/// A valid assignment has every digit exactly once in every row.
pub proof fn lemma_row_digits(a: Seq<u8>, r: int)
    requires
        valid_values(a),
        0 <= r < 9,
    ensures
        distinct_seq(row_vals(a, r)),
        digits_in_range(row_vals(a, r)),
        forall|d: u8| 1 <= d <= 9 ==> count_eq(row_vals(a, r), d) == 1,
        forall|d: u8| 1 <= d <= 9 ==> #[trigger] row_vals(a, r).contains(d),
        seq_sum(row_vals(a, r)) == 45,
{
    let s = row_vals(a, r);
    assert forall|j: int, k: int| 0 <= j < k < 9 implies s[j] != s[k] by {
        lemma_cell_at(r, j);
        lemma_cell_at(r, k);
        assert(same_unit(cell_at(r, j), cell_at(r, k)));
    }
    assert forall|k: int| 0 <= k < 9 implies 1 <= #[trigger] s[k] <= 9 by {
        lemma_cell_at(r, k);
    }
    lemma_nine_distinct_digits(s);
}

/// A valid assignment has every digit exactly once in every column.
pub proof fn lemma_col_digits(a: Seq<u8>, c: int)
    requires
        valid_values(a),
        0 <= c < 9,
    ensures
        distinct_seq(col_vals(a, c)),
        digits_in_range(col_vals(a, c)),
        forall|d: u8| 1 <= d <= 9 ==> count_eq(col_vals(a, c), d) == 1,
        forall|d: u8| 1 <= d <= 9 ==> #[trigger] col_vals(a, c).contains(d),
        seq_sum(col_vals(a, c)) == 45,
{
    let s = col_vals(a, c);
    assert forall|j: int, k: int| 0 <= j < k < 9 implies s[j] != s[k] by {
        lemma_cell_at(j, c);
        lemma_cell_at(k, c);
        assert(same_unit(cell_at(j, c), cell_at(k, c)));
    }
    assert forall|k: int| 0 <= k < 9 implies 1 <= #[trigger] s[k] <= 9 by {
        lemma_cell_at(k, c);
    }
    lemma_nine_distinct_digits(s);
}

/// A valid assignment has every digit exactly once in every box.
pub proof fn lemma_box_digits(a: Seq<u8>, b: int)
    requires
        valid_values(a),
        0 <= b < 9,
    ensures
        distinct_seq(box_vals(a, b)),
        digits_in_range(box_vals(a, b)),
        forall|d: u8| 1 <= d <= 9 ==> count_eq(box_vals(a, b), d) == 1,
        forall|d: u8| 1 <= d <= 9 ==> #[trigger] box_vals(a, b).contains(d),
        seq_sum(box_vals(a, b)) == 45,
{
    let s = box_vals(a, b);
    assert forall|j: int, k: int| 0 <= j < k < 9 implies s[j] != s[k] by {
        lemma_box_cell(b, j);
        lemma_box_cell(b, k);
        assert(same_unit(box_cell(b, j), box_cell(b, k)));
    }
    assert forall|k: int| 0 <= k < 9 implies 1 <= #[trigger] s[k] <= 9 by {
        lemma_box_cell(b, k);
    }
    lemma_nine_distinct_digits(s);
}

} // verus!
