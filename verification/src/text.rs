//! Conversions between the 81-character text form of a puzzle and the flat
//! digit form the engine works on, and the line sanitizer used when puzzles
//! are read one per line from arbitrary text.

use vstd::prelude::*;

use vstd::string::StrSliceExecFns;

use crate::grid::SudokuCandidates;
use crate::model::grid_complete;

verus! {

/// Whether `c` is one of the ten digit characters.
pub open spec fn is_digit_char(c: char) -> bool {
    ||| c == '0'
    ||| c == '1'
    ||| c == '2'
    ||| c == '3'
    ||| c == '4'
    ||| c == '5'
    ||| c == '6'
    ||| c == '7'
    ||| c == '8'
    ||| c == '9'
}

/// The numeric value of a digit character (10 for any other character).
pub open spec fn digit_val(c: char) -> u8 {
    if c == '0' {
        0
    } else if c == '1' {
        1
    } else if c == '2' {
        2
    } else if c == '3' {
        3
    } else if c == '4' {
        4
    } else if c == '5' {
        5
    } else if c == '6' {
        6
    } else if c == '7' {
        7
    } else if c == '8' {
        8
    } else if c == '9' {
        9
    } else {
        10
    }
}

/// The digit character for a value 0..=9.
pub open spec fn char_of_digit(d: u8) -> char {
    if d == 0 {
        '0'
    } else if d == 1 {
        '1'
    } else if d == 2 {
        '2'
    } else if d == 3 {
        '3'
    } else if d == 4 {
        '4'
    } else if d == 5 {
        '5'
    } else if d == 6 {
        '6'
    } else if d == 7 {
        '7'
    } else if d == 8 {
        '8'
    } else {
        '9'
    }
}

/// The digit values of a sequence of digit characters.
pub open spec fn digits_of(s: Seq<char>) -> Seq<u8> {
    Seq::new(s.len(), |k: int| digit_val(s[k]))
}

/// The digit characters of a sequence of values 0..=9.
pub open spec fn chars_of(a: Seq<u8>) -> Seq<char> {
    Seq::new(a.len(), |k: int| char_of_digit(a[k]))
}

/// Digit characters survive the round trip through their value.
pub proof fn lemma_digit_char_round_trip(c: char)
    requires
        is_digit_char(c),
    ensures
        char_of_digit(digit_val(c)) == c,
{
}

/// Reads a string of digit characters into the flat digit form.
pub fn convert_problem_str(problem_raw_in: &str) -> (res: Vec<u8>)
    requires
        forall|k: int| 0 <= k < problem_raw_in@.len() ==> is_digit_char(#[trigger] problem_raw_in@[k]),
    ensures
        res@ == digits_of(problem_raw_in@),
        forall|k: int| 0 <= k < res@.len() ==> #[trigger] res@[k] <= 9,
{
    let n = problem_raw_in.unicode_len();
    let mut res: Vec<u8> = Vec::new();
    let mut k: usize = 0;
    while k < n
        invariant
            forall|j: int|
                0 <= j < problem_raw_in@.len() ==> is_digit_char(#[trigger] problem_raw_in@[j]),
            n == problem_raw_in@.len(),
            k <= n,
            res@ =~= digits_of(problem_raw_in@.take(k as int)),
        decreases n - k,
    {
        let c = problem_raw_in.get_char(k);
        let d = digit_of_char(c);
        res.push(d);
        proof {
            assert(res@ =~= digits_of(problem_raw_in@.take(k + 1)));
        }
        k = k + 1;
    }
    proof {
        assert(problem_raw_in@.take(n as int) =~= problem_raw_in@);
        assert(res@ =~= digits_of(problem_raw_in@));
        assert forall|k2: int| 0 <= k2 < res@.len() implies #[trigger] res@[k2] <= 9 by {
            assert(res@[k2] == digit_val(problem_raw_in@[k2]));
        }
    }
    res
}

/// The numeric value of a digit character.
fn digit_of_char(c: char) -> (d: u8)
    requires
        is_digit_char(c),
    ensures
        d == digit_val(c),
{
    if c == '0' {
        0
    } else if c == '1' {
        1
    } else if c == '2' {
        2
    } else if c == '3' {
        3
    } else if c == '4' {
        4
    } else if c == '5' {
        5
    } else if c == '6' {
        6
    } else if c == '7' {
        7
    } else if c == '8' {
        8
    } else {
        9
    }
}

/// A one-character string holding the digit character for `d`.
fn digit_str(d: u8) -> (res: &'static str)
    requires
        d <= 9,
    ensures
        res@ =~= seq![char_of_digit(d)],
{
    if d == 0 {
        proof {
            reveal_strlit("0");
        }
        "0"
    } else if d == 1 {
        proof {
            reveal_strlit("1");
        }
        "1"
    } else if d == 2 {
        proof {
            reveal_strlit("2");
        }
        "2"
    } else if d == 3 {
        proof {
            reveal_strlit("3");
        }
        "3"
    } else if d == 4 {
        proof {
            reveal_strlit("4");
        }
        "4"
    } else if d == 5 {
        proof {
            reveal_strlit("5");
        }
        "5"
    } else if d == 6 {
        proof {
            reveal_strlit("6");
        }
        "6"
    } else if d == 7 {
        proof {
            reveal_strlit("7");
        }
        "7"
    } else if d == 8 {
        proof {
            reveal_strlit("8");
        }
        "8"
    } else {
        proof {
            reveal_strlit("9");
        }
        "9"
    }
}

/// The result of replacing commas by nothing and every other non-digit
/// character by a blank cell, read as digit values.
pub open spec fn sanitize_spec(s: Seq<char>) -> Seq<u8>
    decreases s.len(),
{
    if s.len() == 0 {
        Seq::empty()
    } else {
        let rest = sanitize_spec(s.drop_last());
        let c = s.last();
        if c == ',' {
            rest
        } else if is_digit_char(c) {
            rest.push(digit_val(c))
        } else {
            rest.push(0)
        }
    }
}

/// Turns one line of puzzle text into flat digit form: commas are dropped
/// and any other non-digit character counts as a blank cell.
pub fn sanitize_line(line: &str) -> (res: Vec<u8>)
    ensures
        res@ == sanitize_spec(line@),
        forall|k: int| 0 <= k < res@.len() ==> #[trigger] res@[k] <= 9,
{
    let n = line.unicode_len();
    let mut res: Vec<u8> = Vec::new();
    let mut k: usize = 0;
    while k < n
        invariant
            n == line@.len(),
            k <= n,
            res@ == sanitize_spec(line@.take(k as int)),
            forall|j: int| 0 <= j < res@.len() ==> #[trigger] res@[j] <= 9,
        decreases n - k,
    {
        let c = line.get_char(k);
        proof {
            assert(line@.take(k + 1).drop_last() =~= line@.take(k as int));
            assert(line@.take(k + 1).last() == line@[k as int]);
        }
        if c != ',' {
            if c == '0' || c == '1' || c == '2' || c == '3' || c == '4' || c == '5' || c == '6'
                || c == '7' || c == '8' || c == '9' {
                res.push(digit_of_char(c));
            } else {
                res.push(0);
            }
        }
        k = k + 1;
    }
    proof {
        assert(line@.take(n as int) =~= line@);
    }
    res
}

impl SudokuCandidates {
    /// The 81 digits of a solved board as one string of digit characters.
    pub fn to_continuous_string(&self) -> (res: String)
        requires
            self.wf(),
            grid_complete(self@),
        ensures
            res@ == chars_of(crate::model::grid_values(self@)),
            res@.len() == 81,
    {
        let mut res_str = String::new();
        let mut i: usize = 0;
        while i < 81
            invariant
                self.wf(),
                grid_complete(self@),
                i <= 81,
                res_str@ =~= chars_of(crate::model::grid_values(self@)).take(i as int),
            decreases 81 - i,
        {
            let el = self.dom_get(i, 0);
            res_str.append(digit_str(el));
            proof {
                assert(res_str@ =~= chars_of(crate::model::grid_values(self@)).take(i + 1));
            }
            i = i + 1;
        }
        proof {
            let full = chars_of(crate::model::grid_values(self@));
            assert(full.take(81) =~= full);
        }
        res_str
    }
}

} // verus!
