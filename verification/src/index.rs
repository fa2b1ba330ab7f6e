//! Positions of the grid and the two reorderings of them.
//!
//! A cell is named by its position `i` in reading order, `0 <= i < 81`:
//! row `i / 9`, column `i % 9`. The column view and the box view hold the
//! same 81 cells in another order, so that the nine cells of one column,
//! or of one box, lie side by side. Each reordering is one-to-one and
//! onto, with an inverse that is written out here.

use vstd::prelude::*;

verus! {

/// Row of position `i`.
pub open spec fn row_of(i: int) -> int {
    i / 9
}

/// Column of position `i`.
pub open spec fn col_of(i: int) -> int {
    i % 9
}

/// Box of position `i`. Boxes are counted down the left band of three
/// columns first, then down the middle band, then down the right one.
pub open spec fn box_of(i: int) -> int {
    3 * (col_of(i) / 3) + row_of(i) / 3
}

/// The three kinds of group in which no digit may stand twice: rows,
/// columns, and blocks, which are the boxes of three by three cells.
/// There are nine groups of each kind, numbered from 0.
pub enum Group {
    Row,
    Column,
    Block,
}

/// The group of the given kind in which position `i` lies.
pub open spec fn group_of(kind: Group, i: int) -> int {
    match kind {
        Group::Row => row_of(i),
        Group::Column => col_of(i),
        Group::Block => box_of(i),
    }
}

/// Whether positions `i` and `j` lie in one row, one column or one box. A
/// position shares all three with itself.
pub open spec fn same_group(i: int, j: int) -> bool {
    row_of(i) == row_of(j) || col_of(i) == col_of(j) || box_of(i) == box_of(j)
}

/// Two different positions in one row, column or box: the cells that
/// may not hold the same digit.
pub open spec fn peers(i: int, j: int) -> bool {
    i != j && same_group(i, j)
}

/// Slot of position `i` in the column view: column after column, each from
/// the top row down.
pub open spec fn col_index(i: int) -> int {
    9 * col_of(i) + row_of(i)
}

/// Slot of position `i` in the box view: box after box, each in reading
/// order.
pub open spec fn box_index(i: int) -> int {
    9 * box_of(i) + 3 * (row_of(i) % 3) + col_of(i) % 3
}

/// Position whose slot in the column view is `j`.
pub open spec fn col_index_inv(j: int) -> int {
    9 * (j % 9) + j / 9
}

/// Position whose slot in the box view is `j`.
pub open spec fn box_index_inv(j: int) -> int {
    27 * ((j / 9) % 3) + 9 * ((j / 3) % 3) + 3 * (j / 27) + j % 3
}

/// Slot of position `i` in the view that keeps the groups of the given
/// kind together. For rows that is the reading order itself.
pub open spec fn slot(kind: Group, i: int) -> int {
    match kind {
        Group::Row => i,
        Group::Column => col_index(i),
        Group::Block => box_index(i),
    }
}

/// Position whose slot in the view of the given kind is `j`.
pub open spec fn slot_inv(kind: Group, j: int) -> int {
    match kind {
        Group::Row => j,
        Group::Column => col_index_inv(j),
        Group::Block => box_index_inv(j),
    }
}

/// The `k`-th cell of group `u` of the given kind, in the order of the
/// view that keeps such groups together.
pub open spec fn cell_at(kind: Group, u: int, k: int) -> int {
    slot_inv(kind, 9 * u + k)
}

/// The four base-three digits of a position: band of rows, row in the
/// band, band of columns, column in the band.
proof fn lemma_digits(i: int)
    requires
        0 <= i < 81,
    ensures
        i == 27 * (i / 27) + 9 * ((i / 9) % 3) + 3 * ((i / 3) % 3) + i % 3,
        0 <= i / 27 < 3,
        row_of(i) == 3 * (i / 27) + (i / 9) % 3,
        row_of(i) / 3 == i / 27,
        row_of(i) % 3 == (i / 9) % 3,
        col_of(i) == 3 * ((i / 3) % 3) + i % 3,
        col_of(i) / 3 == (i / 3) % 3,
        col_of(i) % 3 == i % 3,
{
}

/// A position put together from its four base-three digits.
proof fn lemma_from_digits(a: int, b: int, c: int, d: int)
    requires
        0 <= a < 3,
        0 <= b < 3,
        0 <= c < 3,
        0 <= d < 3,
    ensures
        ({
            let i = 27 * a + 9 * b + 3 * c + d;
            &&& 0 <= i < 81
            &&& i / 27 == a
            &&& (i / 9) % 3 == b
            &&& (i / 3) % 3 == c
            &&& i % 3 == d
        }),
{
}

/// Quotient and remainder of a number written as nine times one digit
/// plus another.
proof fn lemma_nines(q: int, r: int)
    requires
        0 <= r < 9,
    ensures
        (9 * q + r) / 9 == q,
        (9 * q + r) % 9 == r,
{
}

/// The column view there and back.
proof fn lemma_col_round(i: int)
    requires
        0 <= i < 81,
    ensures
        0 <= col_index(i) < 81,
        0 <= col_index_inv(i) < 81,
        col_index_inv(col_index(i)) == i,
        col_index(col_index_inv(i)) == i,
{
    let r = i / 9;
    let c = i % 9;
    assert(i == 9 * r + c && 0 <= r < 9 && 0 <= c < 9);
    lemma_nines(c, r);
}

/// The box view reads the digits `(a, b, c, d)` of a position as
/// `(c, a, b, d)`.
proof fn lemma_box_digits(i: int)
    requires
        0 <= i < 81,
    ensures
        box_index(i) == 27 * ((i / 3) % 3) + 9 * (i / 27) + 3 * ((i / 9) % 3) + i % 3,
        0 <= box_index(i) < 81,
        0 <= box_index_inv(i) < 81,
{
    lemma_digits(i);
}

/// The box view there and back.
proof fn lemma_box_round(i: int)
    requires
        0 <= i < 81,
    ensures
        box_index_inv(box_index(i)) == i,
{
    lemma_digits(i);
    lemma_box_digits(i);
    lemma_from_digits((i / 3) % 3, i / 27, (i / 9) % 3, i % 3);
}

/// The box view back and there.
proof fn lemma_box_back(j: int)
    requires
        0 <= j < 81,
    ensures
        box_index(box_index_inv(j)) == j,
{
    lemma_digits(j);
    let i = box_index_inv(j);
    lemma_from_digits((j / 9) % 3, (j / 3) % 3, j / 27, j % 3);
    lemma_box_digits(i);
}

/// Both reorderings map the 81 positions into the 81 slots, and their
/// inverses lead back: applied after the reordering they return the
/// position, applied before it they return the slot.
pub proof fn lemma_index_inverse(i: int)
    requires
        0 <= i < 81,
    ensures
        0 <= col_index(i) < 81,
        0 <= box_index(i) < 81,
        0 <= col_index_inv(i) < 81,
        0 <= box_index_inv(i) < 81,
        col_index_inv(col_index(i)) == i,
        box_index_inv(box_index(i)) == i,
        col_index(col_index_inv(i)) == i,
        box_index(box_index_inv(i)) == i,
{
    lemma_col_round(i);
    lemma_box_digits(i);
    lemma_box_round(i);
    lemma_box_back(i);
}

/// No two positions share a slot, in either view.
pub proof fn lemma_index_injective(i: int, j: int)
    requires
        0 <= i < 81,
        0 <= j < 81,
        i != j,
    ensures
        col_index(i) != col_index(j),
        box_index(i) != box_index(j),
{
    lemma_index_inverse(i);
    lemma_index_inverse(j);
}

/// The nine slots of a column's block hold exactly the column's cells,
/// and the nine slots of a box's block exactly the box's cells.
pub proof fn lemma_index_blocks(i: int)
    requires
        0 <= i < 81,
    ensures
        col_index(i) / 9 == col_of(i),
        box_index(i) / 9 == box_of(i),
        0 <= row_of(i) < 9,
        0 <= col_of(i) < 9,
        0 <= box_of(i) < 9,
{
    lemma_nines(i % 9, i / 9);
    lemma_digits(i);
    lemma_box_digits(i);
    lemma_from_digits((i / 3) % 3, i / 27, (i / 9) % 3, i % 3);
}

/// In the view of each kind the groups of that kind lie one after the
/// other, nine slots each, and the way back from a slot leads to the
/// position that has it.
pub proof fn lemma_slots(kind: Group, i: int)
    requires
        0 <= i < 81,
    ensures
        0 <= slot(kind, i) < 81,
        0 <= slot_inv(kind, i) < 81,
        slot_inv(kind, slot(kind, i)) == i,
        slot(kind, slot_inv(kind, i)) == i,
        slot(kind, i) / 9 == group_of(kind, i),
        0 <= group_of(kind, i) < 9,
{
    lemma_index_inverse(i);
    lemma_index_blocks(i);
}

/// The nine cells of a group lie in the grid and in that group, each in
/// a slot of its own.
pub proof fn lemma_cell_at(kind: Group, u: int, k: int)
    requires
        0 <= u < 9,
        0 <= k < 9,
    ensures
        0 <= cell_at(kind, u, k) < 81,
        group_of(kind, cell_at(kind, u, k)) == u,
        slot(kind, cell_at(kind, u, k)) == 9 * u + k,
{
    lemma_slots(kind, 9 * u + k);
    lemma_slots(kind, cell_at(kind, u, k));
    lemma_nines(u, k);
}

/// Every cell is one of the nine cells of its group.
pub proof fn lemma_cell_of_group(kind: Group, i: int)
    requires
        0 <= i < 81,
    ensures
        0 <= slot(kind, i) - 9 * group_of(kind, i) < 9,
        cell_at(kind, group_of(kind, i), slot(kind, i) - 9 * group_of(kind, i)) == i,
{
    lemma_slots(kind, i);
}

} // verus!
