use norenfas::grid::Sudoku;
use norenfas::solver::rec_solve;

const SOLUTION: [u8; 81] = [
    8, 1, 6, 9, 2, 4, 5, 3, 7, //
    9, 5, 2, 3, 1, 7, 4, 6, 8, //
    3, 7, 4, 6, 8, 5, 2, 9, 1, //
    1, 9, 7, 4, 5, 6, 3, 8, 2, //
    5, 2, 8, 1, 9, 3, 7, 4, 6, //
    6, 4, 3, 8, 7, 2, 1, 5, 9, //
    4, 3, 9, 2, 6, 1, 8, 7, 5, //
    2, 6, 5, 7, 3, 8, 9, 1, 4, //
    7, 8, 1, 5, 4, 9, 6, 2, 3, //
];

fn cells(sudoku: &Sudoku) -> [u8; 81] {
    let mut out = [0u8; 81];
    for i in 0..81 {
        out[i] = sudoku.get(i);
    }
    out
}

#[test]
fn column_slots_are_exact() {
    assert_eq!(0, Sudoku::transpose_col(0));
    assert_eq!(9, Sudoku::transpose_col(1));
    assert_eq!(72, Sudoku::transpose_col(8));
    assert_eq!(1, Sudoku::transpose_col(9));
    assert_eq!(40, Sudoku::transpose_col(40));
    assert_eq!(24, Sudoku::transpose_col(56));
    assert_eq!(80, Sudoku::transpose_col(80));
}

#[test]
fn box_slots_are_exact() {
    // box after box down the left band, then the middle, then the right
    assert_eq!(0, Sudoku::transpose_box(0));
    assert_eq!(1, Sudoku::transpose_box(1));
    assert_eq!(2, Sudoku::transpose_box(2));
    assert_eq!(27, Sudoku::transpose_box(3));
    assert_eq!(56, Sudoku::transpose_box(8));
    assert_eq!(3, Sudoku::transpose_box(9));
    assert_eq!(9, Sudoku::transpose_box(27));
    assert_eq!(40, Sudoku::transpose_box(40));
    assert_eq!(80, Sudoku::transpose_box(80));
}

#[test]
fn slots_are_taken_once_each() {
    let mut col_taken = [false; 81];
    let mut box_taken = [false; 81];
    for i in 0..81 {
        let c = Sudoku::transpose_col(i);
        let b = Sudoku::transpose_box(i);
        assert!(c < 81 && b < 81);
        assert!(!col_taken[c]);
        assert!(!box_taken[b]);
        col_taken[c] = true;
        box_taken[b] = true;
    }
    assert!(col_taken.iter().all(|&t| t));
    assert!(box_taken.iter().all(|&t| t));
}

#[test]
fn slots_lead_back_to_positions() {
    for i in 0..81 {
        // the column view is its own way back
        assert_eq!(i, Sudoku::transpose_col(Sudoku::transpose_col(i)));
        // the way back from the box view, written out
        let j = Sudoku::transpose_box(i);
        let back = 27 * ((j / 9) % 3) + 9 * ((j / 3) % 3) + 3 * (j / 27) + j % 3;
        assert_eq!(i, back);
    }
}

#[test]
fn blocks_hold_columns_and_boxes() {
    for i in 0..81 {
        assert_eq!(i % 9, Sudoku::transpose_col(i) / 9);
        assert_eq!(i / 9, Sudoku::transpose_col(i) % 9);
        let row = i / 9;
        let col = i % 9;
        assert_eq!(3 * (col / 3) + row / 3, Sudoku::transpose_box(i) / 9);
        assert_eq!(3 * (row % 3) + col % 3, Sudoku::transpose_box(i) % 9);
    }
}

#[test]
fn new_keeps_the_cells() {
    let sudoku = Sudoku::new(&SOLUTION);
    assert_eq!(SOLUTION, cells(&sudoku));
    let odd = {
        let mut g = [0u8; 81];
        for i in 0..81 {
            g[i] = (3 * i) as u8;
        }
        g
    };
    assert_eq!(odd, cells(&Sudoku::new(&odd)));
}

#[test]
fn set_writes_one_cell() {
    let mut sudoku = Sudoku::new(&[0u8; 81]);
    sudoku.set(30, 7);
    let mut expected = [0u8; 81];
    expected[30] = 7;
    assert_eq!(expected, cells(&sudoku));
    sudoku.set(30, 0);
    assert_eq!([0u8; 81], cells(&sudoku));
}

#[test]
fn digit_is_refused_in_its_row_column_and_box() {
    let mut sudoku = Sudoku::new(&[0u8; 81]);
    // position 30: row 3, column 3, the middle box
    sudoku.set(30, 7);
    for i in 0..81 {
        let row = i / 9;
        let col = i % 9;
        let shares = row == 3 || col == 3 || (row / 3 == 1 && col / 3 == 1);
        assert_eq!(!shares, sudoku.is_tile_valid(i, 7));
        assert!(sudoku.is_tile_valid(i, 6));
    }
}

#[test]
fn digit_is_refused_where_it_stands() {
    let mut sudoku = Sudoku::new(&[0u8; 81]);
    sudoku.set(0, 4);
    assert!(!sudoku.is_tile_valid(0, 4));
    assert!(sudoku.is_tile_valid(0, 5));
}

#[test]
fn validity_follows_every_write() {
    let mut sudoku = Sudoku::new(&SOLUTION);
    // every digit stands in every group
    for i in 0..81 {
        for n in 1..=9 {
            assert!(!sudoku.is_tile_valid(i, n));
        }
    }
    // without the 9 of the centre cell, a 9 fits there and nowhere else
    assert_eq!(9, sudoku.get(40));
    sudoku.set(40, 0);
    for i in 0..81 {
        assert_eq!(i == 40, sudoku.is_tile_valid(i, 9));
    }
    sudoku.set(40, 9);
    assert!(!sudoku.is_tile_valid(40, 9));
}

#[test]
fn search_from_a_later_cell_leaves_earlier_blanks() {
    let mut grid = SOLUTION;
    grid[0] = 0;
    grid[80] = 0;
    let mut sudoku = Sudoku::new(&grid);
    assert!(rec_solve(1, &mut sudoku));
    let mut expected = SOLUTION;
    expected[0] = 0;
    assert_eq!(expected, cells(&sudoku));
    assert!(rec_solve(0, &mut sudoku));
    assert_eq!(SOLUTION, cells(&sudoku));
}

#[test]
fn search_past_the_end_finds_nothing_to_do() {
    let mut sudoku = Sudoku::new(&[0u8; 81]);
    assert!(rec_solve(81, &mut sudoku));
    assert!(rec_solve(1000, &mut sudoku));
    assert_eq!([0u8; 81], cells(&sudoku));
}

#[test]
fn failed_search_restores_the_grid() {
    let mut grid = SOLUTION;
    grid[8] = 3;
    grid[79] = 0;
    grid[80] = 0;
    let mut sudoku = Sudoku::new(&grid);
    assert!(!rec_solve(0, &mut sudoku));
    assert_eq!(grid, cells(&sudoku));
}
