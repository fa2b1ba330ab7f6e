//! The grid in three views.
//!
//! The same 81 cells are kept three times: in reading order, column after
//! column, and box after box. To see whether a digit stands in a row, a
//! column or a box then takes a look at nine cells that lie side by side.

use vstd::prelude::*;
use crate::index::{
    box_index, col_index, group_of, lemma_index_blocks, lemma_index_injective,
    lemma_index_inverse, lemma_slots, peers, slot, slot_inv, Group,
};
use crate::rules::digit_free;

verus! {

/// A grid with its column view and its box view.
pub struct Sudoku {
    line_grid: [u8; 81],
    col_grid: [u8; 81],
    box_grid: [u8; 81],
}

impl View for Sudoku {
    type V = Seq<u8>;

    /// The 81 cells in reading order.
    closed spec fn view(&self) -> Seq<u8> {
        self.line_grid@
    }
}

impl Sudoku {
    /// The three views agree: each cell stands in its slot of the column
    /// view and in its slot of the box view.
    pub closed spec fn wf(&self) -> bool {
        forall|i: int|
            0 <= i < 81 ==> {
                &&& self.col_grid@[col_index(i)] == #[trigger] self.line_grid@[i]
                &&& self.box_grid@[box_index(i)] == self.line_grid@[i]
            }
    }

    /// A grid has 81 cells.
    pub proof fn lemma_len(&self)
        ensures
            self@.len() == 81,
    {
    }

    /// Slot of position `i` in the column view.
    pub fn transpose_col(i: usize) -> (j: usize)
        requires
            i < 81,
        ensures
            j == col_index(i as int),
            j < 81,
    {
        (i % 9) * 9 + i / 9
    }

    /// Slot of position `i` in the box view.
    pub fn transpose_box(i: usize) -> (j: usize)
        requires
            i < 81,
        ensures
            j == box_index(i as int),
            j < 81,
    {
        proof {
            lemma_index_inverse(i as int);
            lemma_index_blocks(i as int);
        }
        let row = i / 9;
        let col = i % 9;
        (col / 3) * 27 + row * 3 + col % 3
    }

    /// The three views of `grid`.
    pub fn new(grid: &[u8; 81]) -> (s: Sudoku)
        ensures
            s.wf(),
            s@ == grid@,
    {
        let mut col_grid = [0u8; 81];
        let mut box_grid = [0u8; 81];
        let mut i: usize = 0;
        while i < 81
            invariant
                i <= 81,
                forall|h: int|
                    0 <= h < i ==> {
                        &&& col_grid@[col_index(h)] == #[trigger] grid@[h]
                        &&& box_grid@[box_index(h)] == grid@[h]
                    },
            decreases 81 - i,
        {
            let ghost col_before = col_grid@;
            let ghost box_before = box_grid@;
            col_grid[Self::transpose_col(i)] = grid[i];
            box_grid[Self::transpose_box(i)] = grid[i];
            assert forall|h: int| 0 <= h < i + 1 implies {
                &&& col_grid@[col_index(h)] == #[trigger] grid@[h]
                &&& box_grid@[box_index(h)] == grid@[h]
            } by {
                if h < i {
                    lemma_index_injective(h, i as int);
                    lemma_index_inverse(h);
                }
            }
            i += 1;
        }
        Sudoku { line_grid: *grid, col_grid, box_grid }
    }

    /// The cell at position `i`.
    pub fn get(&self, i: usize) -> (n: u8)
        requires
            i < 81,
        ensures
            n == self@[i as int],
    {
        self.line_grid[i]
    }

    /// Writes `n` into the cell at position `i`, in all three views.
    pub fn set(&mut self, i: usize, n: u8)
        requires
            old(self).wf(),
            i < 81,
        ensures
            final(self).wf(),
            final(self)@ == old(self)@.update(i as int, n),
    {
        let c = Self::transpose_col(i);
        let b = Self::transpose_box(i);
        self.line_grid[i] = n;
        self.col_grid[c] = n;
        self.box_grid[b] = n;
        proof {
            assert forall|h: int| 0 <= h < 81 implies {
                &&& self.col_grid@[col_index(h)] == #[trigger] self.line_grid@[h]
                &&& self.box_grid@[box_index(h)] == self.line_grid@[h]
            } by {
                lemma_index_inverse(h);
                if h != i {
                    lemma_index_injective(h, i as int);
                }
            }
        }
    }

    /// Whether `n` stands in one of the nine slots of `view` from `start` on.
    fn block_holds(view: &[u8; 81], start: usize, n: u8) -> (found: bool)
        requires
            start + 9 <= 81,
        ensures
            found <==> exists|j: int| start <= j < start + 9 && #[trigger] view@[j] == n,
    {
        let mut k: usize = 0;
        while k < 9
            invariant
                k <= 9,
                start + 9 <= 81,
                forall|j: int| start <= j < start + k ==> #[trigger] view@[j] != n,
            decreases 9 - k,
        {
            if view[start + k] == n {
                return true;
            }
            k += 1;
        }
        false
    }

    /// The view that keeps the groups of the given kind together.
    spec fn view_of(&self, kind: Group) -> Seq<u8> {
        match kind {
            Group::Row => self.line_grid@,
            Group::Column => self.col_grid@,
            Group::Block => self.box_grid@,
        }
    }

    /// The nine slots from `9 * u` on in the view of a kind hold the
    /// cells of group `u` of that kind.
    proof fn lemma_block(&self, kind: Group, u: int, n: u8)
        requires
            self.wf(),
            0 <= u < 9,
        ensures
            (exists|k: int| 9 * u <= k < 9 * u + 9 && #[trigger] self.view_of(kind)[k] == n) <==> (
            exists|j: int| 0 <= j < 81 && group_of(kind, j) == u && #[trigger] self@[j] == n),
    {
        if exists|k: int| 9 * u <= k < 9 * u + 9 && #[trigger] self.view_of(kind)[k] == n {
            let k = choose|k: int| 9 * u <= k < 9 * u + 9 && #[trigger] self.view_of(kind)[k] == n;
            let j = slot_inv(kind, k);
            lemma_slots(kind, k);
            lemma_slots(kind, j);
            assert(0 <= j < 81 && group_of(kind, j) == u && self@[j] == n);
        }
        if exists|j: int| 0 <= j < 81 && group_of(kind, j) == u && #[trigger] self@[j] == n {
            let j = choose|j: int|
                0 <= j < 81 && group_of(kind, j) == u && #[trigger] self@[j] == n;
            let k = slot(kind, j);
            lemma_slots(kind, j);
            assert(9 * u <= k < 9 * u + 9 && self.view_of(kind)[k] == n);
        }
    }

    /// Whether the digit `n` may go into the cell at position `i`: it may
    /// if it stands nowhere in the row, the column and the box of `i`. The
    /// cell itself is looked at too, so a digit is refused where it already
    /// stands; wherever the cell holds something else, the answer is whether
    /// no peer of it holds `n`.
    pub fn is_tile_valid(&self, i: usize, n: u8) -> (ok: bool)
        requires
            self.wf(),
            i < 81,
        ensures
            ok == digit_free(self@, i as int, n),
            self@[i as int] != n ==> (ok <==> forall|k: int|
                0 <= k < 81 && peers(i as int, k) ==> #[trigger] self@[k] != n),
    {
        proof {
            lemma_index_blocks(i as int);
            assert(self.view_of(Group::Row) == self.line_grid@);
            assert(self.view_of(Group::Column) == self.col_grid@);
            assert(self.view_of(Group::Block) == self.box_grid@);
            self.lemma_block(Group::Row, group_of(Group::Row, i as int), n);
            self.lemma_block(Group::Column, group_of(Group::Column, i as int), n);
            self.lemma_block(Group::Block, group_of(Group::Block, i as int), n);
        }
        !(Self::block_holds(&self.line_grid, i / 9 * 9, n) || Self::block_holds(
            &self.col_grid,
            (i % 9) * 9,
            n,
        ) || Self::block_holds(&self.box_grid, Self::transpose_box(i) / 9 * 9, n))
    }
}

} // verus!
