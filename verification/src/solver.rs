//! The search.
//!
//! Blank cells are filled in reading order. Each gets the least digit that
//! no cell of its row, column and box holds and with which the rest of the
//! grid can still be filled; when no digit is left for a cell, the search
//! goes back to the cell before.

use vstd::prelude::*;
use crate::grid::Sudoku;
use crate::index::{peers, same_group};
use crate::rules::{
    completable, completes, completes_from, first_completion, first_from, lemma_blocked_digit,
    lemma_first_with_least, lemma_given_cell, lemma_nothing_left, lemma_placed_cell,
};
use crate::solved::{
    givens_consistent, is_solution, is_solved, lemma_completion_solved, lemma_full_grid,
    lemma_one_repeat, lemma_solution, lemma_solvable, lemma_solved_grid, one_repeat, solvable,
};

verus! {

/// Fills the blank cells of `sudoku` from position `i` on; the cells
/// before `i`, and those that are not blank, stay as they are.
///
/// Returns whether that can be done. If it can, `sudoku` holds the first
/// way of doing it: no other way has a smaller digit in the first cell in
/// which the two differ. If it cannot, `sudoku` is left as it was.
pub fn rec_solve(i: usize, sudoku: &mut Sudoku) -> (solved: bool)
    requires
        old(sudoku).wf(),
    ensures
        final(sudoku).wf(),
        solved <==> exists|s: Seq<u8>| completes_from(old(sudoku)@, i as int, s),
        solved ==> first_from(old(sudoku)@, i as int, final(sudoku)@),
        !solved ==> final(sudoku)@ == old(sudoku)@,
    decreases 81 - i,
{
    let ghost g = sudoku@;
    proof {
        sudoku.lemma_len();
    }
    if i >= 81 {
        proof {
            lemma_nothing_left(g, i as int, g);
        }
        return true;
    }
    if sudoku.get(i) != 0 {
        let solved = rec_solve(i + 1, sudoku);
        proof {
            assert forall|t: Seq<u8>| #[trigger]
                completes_from(g, i as int, t) implies completes_from(g, i + 1, t) by {
                lemma_given_cell(g, i as int, t);
            }
            if solved {
                lemma_given_cell(g, i as int, sudoku@);
            }
        }
        return solved;
    }
    // `cur` is what cell `i` holds: nothing yet, or the last digit that
    // was written there in vain. No way of filling the grid has a digit
    // below `n` in cell `i`.
    let ghost mut cur: u8 = 0;
    let mut n: u8 = 1;
    while n <= 9
        invariant
            1 <= n <= 10,
            i < 81,
            g.len() == 81,
            g == old(sudoku)@,
            g[i as int] == 0,
            cur < n,
            sudoku.wf(),
            sudoku@ == g.update(i as int, cur),
            forall|t: Seq<u8>| #[trigger] completes_from(g, i as int, t) ==> t[i as int] >= n,
        decreases 10 - n,
    {
        if sudoku.is_tile_valid(i, n) {
            proof {
                assert forall|k: int| 0 <= k < 81 && peers(i as int, k) implies #[trigger] g[k]
                    != n by {
                    assert(sudoku@[k] == g[k]);
                }
            }
            sudoku.set(i, n);
            assert(sudoku@ =~= g.update(i as int, n));
            if rec_solve(i + 1, sudoku) {
                // the first way with `n` in cell `i` is the first of all
                proof {
                    lemma_first_with_least(g, i as int, n, sudoku@);
                }
                return true;
            }
            proof {
                // the rest cannot be filled with `n` in cell `i`
                assert forall|t: Seq<u8>| #[trigger]
                    completes_from(g, i as int, t) implies t[i as int] >= n + 1 by {
                    lemma_placed_cell(g, i as int, n, t);
                }
                cur = n;
            }
        } else {
            proof {
                // a peer `k` of cell `i` holds `n`, and will hold it
                let k = choose|k: int|
                    0 <= k < 81 && same_group(i as int, k) && #[trigger] sudoku@[k] == n;
                assert forall|t: Seq<u8>| #[trigger]
                    completes_from(g, i as int, t) implies t[i as int] >= n + 1 by {
                    lemma_blocked_digit(g, i as int, k, t);
                }
            }
        }
        n += 1;
    }
    sudoku.set(i, 0);
    proof {
        // no digit is left for cell `i`
        assert forall|t: Seq<u8>| !completes_from(g, i as int, t) by {
            if completes_from(g, i as int, t) {
                assert(t[i as int] >= 10);
            }
        }
    }
    false
}

/// Solves the puzzle `sudoku`, a grid in reading order with 0 for a blank
/// cell, in place.
///
/// Returns whether the blank cells can be filled, each with a digit 1 to 9
/// that stands nowhere else in its row, its column and its box. If they
/// can, `sudoku` holds the first way of filling them, and the given cells
/// are untouched. If they cannot, all of `sudoku` is untouched.
///
/// A puzzle that has a solution gets one, the first of them; and `sudoku`
/// comes out solved only if it is a solution of what went in.
///
/// The given cells are taken as they are, whatever they hold: the search
/// never compares one with another. So the grid that comes out is solved
/// just when the given cells obeyed the rules among themselves, and a
/// grid that is solved already comes out as it went in. Given cells that
/// break the rules are found out only when they leave no way to fill the
/// blank ones. They leave none when they are digits and just one pair of
/// peers among them is alike; a grid without a blank cell, on the other
/// hand, is accepted whatever it holds.
pub fn solve(sudoku: &mut [u8; 81]) -> (solved: bool)
    ensures
        solved <==> completable(old(sudoku)@),
        solved ==> first_completion(old(sudoku)@, final(sudoku)@),
        !solved ==> final(sudoku)@ == old(sudoku)@,
        solved ==> forall|i: int|
            0 <= i < 81 && old(sudoku)@[i] != 0 ==> final(sudoku)@[i] == old(sudoku)@[i],
        solved ==> (is_solved(final(sudoku)@) <==> givens_consistent(old(sudoku)@)),
        solvable(old(sudoku)@) <==> solved && is_solution(old(sudoku)@, final(sudoku)@),
        is_solved(old(sudoku)@) ==> solved && final(sudoku)@ == old(sudoku)@,
        (forall|i: int| 0 <= i < 81 ==> old(sudoku)@[i] != 0) ==> solved && final(sudoku)@ == old(
            sudoku,
        )@,
        one_repeat(old(sudoku)@) ==> !solved,
{
    let ghost g = sudoku@;
    let mut grid = Sudoku::new(sudoku);
    let solved = rec_solve(0, &mut grid);
    proof {
        if is_solved(g) {
            lemma_solved_grid(g, grid@);
        }
        if forall|i: int| 0 <= i < 81 ==> g[i] != 0 {
            lemma_full_grid(g, grid@);
        }
        if one_repeat(g) {
            lemma_one_repeat(g);
        }
        lemma_solvable(g);
    }
    if solved {
        proof {
            grid.lemma_len();
            lemma_completion_solved(g, grid@);
            lemma_solution(g, grid@);
        }
        let mut i: usize = 0;
        while i < 81
            invariant
                i <= 81,
                grid@.len() == 81,
                forall|j: int| 0 <= j < i ==> sudoku@[j] == grid@[j],
            decreases 81 - i,
        {
            sudoku[i] = grid.get(i);
            i += 1;
        }
        assert(sudoku@ =~= grid@);
        return true;
    }
    false
}

} // verus!
