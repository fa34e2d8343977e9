//! Backtracking search over boards, most constrained square first.

use crate::grid::{lemma_set_open_count, Grid};
use crate::search::{lemma_search_result, search, search_from};
use crate::sudoku::{pos, Sudoku};
use vstd::prelude::*;

verus! {

/// A solution of the board, or `None` where it has none. Where it has
/// several, the one that the search reaches first when it fixes the most
/// constrained square to its digits in ascending order.
pub fn solve(sudoku: &Sudoku) -> (result: Option<Sudoku>)
    ensures
        result matches Some(s) ==> search(sudoku@) == Some(s@) && sudoku@.has_solution(s@),
        result is None ==> search(sudoku@) is None && forall|t: Grid| !sudoku@.has_solution(t),
    decreases sudoku@.open_count(),
{
    proof {
        use_type_invariant(sudoku);
        lemma_search_result(sudoku@);
    }
    match sudoku.least_possibilities() {
        None => Some(sudoku.clone()),  // already solved
        Some((index, possibilities)) => {
            if possibilities == 0 {
                return None;
            }
            for value in 1..10u8
                invariant
                    index.0 < 9,
                    index.1 < 9,
                    search(sudoku@) == search_from(sudoku@, pos(index), value as int),
                    search(sudoku@) matches Some(s) ==> sudoku@.has_solution(s),
                    search(sudoku@) is None ==> forall|t: Grid| !sudoku@.has_solution(t),
            {
                let mut s = sudoku.clone();
                if s.set(index, value).is_ok() {
                    proof {
                        lemma_set_open_count(sudoku@, pos(index), value as int);
                    }
                    if let Some(solved) = solve(&s) {
                        return Some(solved);
                    }
                }
            }
            None
        },
    }
}

} // verus!
