use norenfas::io::{parse, render, split_lines, InvalidSudokuFile};

const TEXT: &str = "\
8.6.2.5.7
..2...4..
37.....91
...456...
5..1.3..6
...872...
43.....75
..5...9..
7.1.4.6.3
";

const GRID: [u8; 81] = [
    8, 0, 6, 0, 2, 0, 5, 0, 7, //
    0, 0, 2, 0, 0, 0, 4, 0, 0, //
    3, 7, 0, 0, 0, 0, 0, 9, 1, //
    0, 0, 0, 4, 5, 6, 0, 0, 0, //
    5, 0, 0, 1, 0, 3, 0, 0, 6, //
    0, 0, 0, 8, 7, 2, 0, 0, 0, //
    4, 3, 0, 0, 0, 0, 0, 7, 5, //
    0, 0, 5, 0, 0, 0, 9, 0, 0, //
    7, 0, 1, 0, 4, 0, 6, 0, 3, //
];

fn text(lines: &[&str]) -> Vec<Vec<char>> {
    lines.iter().map(|l| l.chars().collect()).collect()
}

#[test]
fn lines_end_at_line_feeds() {
    assert_eq!(text(&["ab", "c"]), split_lines("ab\nc"));
    assert_eq!(text(&["ab", "c"]), split_lines("ab\nc\n"));
    assert_eq!(text(&["ab", "", "c"]), split_lines("ab\n\nc"));
    assert_eq!(text(&["", "x"]), split_lines("\nx"));
    assert_eq!(text(&[""]), split_lines("\n"));
    assert_eq!(text(&[]), split_lines(""));
    assert_eq!(text(&["one line"]), split_lines("one line"));
}

#[test]
fn carriage_return_before_line_feed_is_dropped() {
    assert_eq!(text(&["ab", "c"]), split_lines("ab\r\nc\r\n"));
    assert_eq!(text(&["ab\r"]), split_lines("ab\r\r\n"));
    assert_eq!(text(&["a\rb"]), split_lines("a\rb\n"));
    assert_eq!(text(&[""]), split_lines("\r\n"));
    // at the very end, without a line feed, it stays
    assert_eq!(text(&["ab", "c\r"]), split_lines("ab\nc\r"));
    assert_eq!(text(&["\r"]), split_lines("\r"));
}

#[test]
fn lines_agree_with_the_standard_library() {
    let samples = [
        "",
        "\n",
        "\n\n",
        "a",
        "a\n",
        "a\nb",
        "a\r\nb\r\n",
        "a\rb\r",
        "\r\n\r\n",
        "\r\r\n\r",
        "x\n\ny\n\n",
        "\u{e9}\u{4e16}\n\u{1f600}\r\n",
    ];
    for s in samples.iter() {
        let expected: Vec<Vec<char>> = s.lines().map(|l| l.chars().collect()).collect();
        assert_eq!(expected, split_lines(s));
    }
}

#[test]
fn puzzle_is_read_row_after_row() {
    assert_eq!(Ok(GRID), parse(TEXT));
}

#[test]
fn last_line_needs_no_line_feed() {
    assert_eq!(Ok(GRID), parse(TEXT.trim_end()));
}

#[test]
fn carriage_returns_are_accepted() {
    let dos = TEXT.replace('\n', "\r\n");
    assert_eq!(Ok(GRID), parse(&dos));
}

#[test]
fn all_blank_and_all_given() {
    let blank = ".........\n".repeat(9);
    assert_eq!(Ok([0u8; 81]), parse(&blank));
    let nines = "999999999\n".repeat(9);
    assert_eq!(Ok([9u8; 81]), parse(&nines));
    let digits = "123456789\n".repeat(9);
    let grid = parse(&digits).unwrap();
    for i in 0..81 {
        assert_eq!((i % 9 + 1) as u8, grid[i]);
    }
}

#[test]
fn wrong_number_of_lines() {
    assert_eq!(Err(InvalidSudokuFile::LineCount), parse(""));
    assert_eq!(Err(InvalidSudokuFile::LineCount), parse("........."));
    let eight = ".........\n".repeat(8);
    assert_eq!(Err(InvalidSudokuFile::LineCount), parse(&eight));
    let ten = ".........\n".repeat(10);
    assert_eq!(Err(InvalidSudokuFile::LineCount), parse(&ten));
    // an empty line counts
    let with_empty = format!("{}\n", TEXT);
    assert_eq!(Err(InvalidSudokuFile::LineCount), parse(&with_empty));
}

#[test]
fn wrong_number_of_columns() {
    let short = TEXT.replacen("..2...4..", "..2...4.", 1);
    assert_eq!(Err(InvalidSudokuFile::ColumnCount), parse(&short));
    let long = TEXT.replacen("..2...4..", "..2...4...", 1);
    assert_eq!(Err(InvalidSudokuFile::ColumnCount), parse(&long));
    let empty = TEXT.replacen("..2...4..", "", 1);
    assert_eq!(Err(InvalidSudokuFile::ColumnCount), parse(&empty));
    // a carriage return at the end of the text is a tenth column
    let cr = format!("{}\r", TEXT.trim_end());
    assert_eq!(Err(InvalidSudokuFile::ColumnCount), parse(&cr));
}

#[test]
fn wrong_character() {
    let zero = TEXT.replacen("..2...4..", "..2.0.4..", 1);
    assert_eq!(Err(InvalidSudokuFile::Character('0')), parse(&zero));
    let letter = TEXT.replacen("..2...4..", "..2...4.x", 1);
    assert_eq!(Err(InvalidSudokuFile::Character('x')), parse(&letter));
    let space = TEXT.replacen("..2...4..", " .2...4..", 1);
    assert_eq!(Err(InvalidSudokuFile::Character(' ')), parse(&space));
    // neighbours of the digits and of the dot in the character table
    for c in ['/', ':', '-', ','] {
        let bad = TEXT.replacen("5..1.3..6", &format!("5..1{}3..6", c), 1);
        assert_eq!(Err(InvalidSudokuFile::Character(c)), parse(&bad));
    }
    // one character of several bytes is one column
    let wide = TEXT.replacen("..2...4..", "..2.\u{4e16}.4..", 1);
    assert_eq!(Err(InvalidSudokuFile::Character('\u{4e16}')), parse(&wide));
    // digits of other scripts are no digits here
    let arabic = TEXT.replacen("..2...4..", "..\u{662}...4..", 1);
    assert_eq!(Err(InvalidSudokuFile::Character('\u{662}')), parse(&arabic));
}

#[test]
fn first_fault_is_reported() {
    // the number of lines comes before all else
    let text = "ab\ncd\n";
    assert_eq!(Err(InvalidSudokuFile::LineCount), parse(text));
    // the first line that is wrong decides
    let text = TEXT.replacen("..2...4..", "..2.x.4..", 1).replacen("37.....91", "37", 1);
    assert_eq!(Err(InvalidSudokuFile::Character('x')), parse(&text));
    let text = TEXT.replacen("..2...4..", "..", 1).replacen("37.....91", "37...x.91", 1);
    assert_eq!(Err(InvalidSudokuFile::ColumnCount), parse(&text));
    // in a line, its length comes before its characters
    let text = TEXT.replacen("..2...4..", "x.2...4...", 1);
    assert_eq!(Err(InvalidSudokuFile::ColumnCount), parse(&text));
    // in a line, the first wrong character decides
    let text = TEXT.replacen("..2...4..", "..a.b.4.c", 1);
    assert_eq!(Err(InvalidSudokuFile::Character('a')), parse(&text));
}

#[test]
fn faults_in_words() {
    assert_eq!(
        "sudoku file should contain exactly 9 lines",
        InvalidSudokuFile::LineCount.message()
    );
    assert_eq!(
        "sudoku file should contain exactly 9 columns",
        InvalidSudokuFile::ColumnCount.message()
    );
    assert_eq!(
        "invalid character x in sudoku file",
        InvalidSudokuFile::Character('x').message()
    );
    assert_eq!(
        "invalid character 0 in sudoku file",
        InvalidSudokuFile::Character('0').message()
    );
    assert_eq!(
        "invalid character \u{4e16} in sudoku file",
        InvalidSudokuFile::Character('\u{4e16}').message()
    );
}

#[test]
fn grid_is_drawn_with_bars_and_rules() {
    let expected = "\
+-----+-----+-----+
|8| |6| |2| |5| |7|
| | |2| | | |4| | |
|3|7| | | | | |9|1|
+-----+-----+-----+
| | | |4|5|6| | | |
|5| | |1| |3| | |6|
| | | |8|7|2| | | |
+-----+-----+-----+
|4|3| | | | | |7|5|
| | |5| | | |9| | |
|7| |1| |4| |6| |3|
+-----+-----+-----+
";
    assert_eq!(expected, render(&GRID));
}

#[test]
fn blank_grid_is_drawn_blank() {
    let row = "| | | | | | | | | |\n";
    let rule = "+-----+-----+-----+\n";
    let mut expected = String::new();
    for r in 0..9 {
        if r % 3 == 0 {
            expected.push_str(rule);
        }
        expected.push_str(row);
    }
    expected.push_str(rule);
    assert_eq!(expected, render(&[0u8; 81]));
}

#[test]
fn values_above_nine_are_drawn_in_decimal() {
    let mut grid = [0u8; 81];
    grid[0] = 10;
    grid[1] = 99;
    grid[2] = 100;
    grid[3] = 255;
    grid[4] = 9;
    grid[5] = 109;
    let drawn = render(&grid);
    let second_line = drawn.lines().nth(1).unwrap();
    assert_eq!("|10|99|100|255|9|109| | | |", second_line);
}

#[test]
fn drawing_and_reading_fit_together() {
    let drawn = render(&GRID);
    let mut back = String::new();
    for line in drawn.lines() {
        if line.starts_with('+') {
            continue;
        }
        let cells: Vec<&str> = line.split('|').collect();
        for cell in &cells[1..10] {
            back.push_str(if *cell == " " { "." } else { cell });
        }
        back.push('\n');
    }
    assert_eq!(TEXT, back);
    assert_eq!(Ok(GRID), parse(&back));
}
