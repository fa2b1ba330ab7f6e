//! Reading a puzzle from text and drawing a grid as text.
//!
//! A puzzle is written as nine lines of nine characters, a digit `1` to `9`
//! for a given cell and `.` for a blank one.

use vstd::prelude::*;
use vstd::string::StringExecFns;

verus! {

/// `String::push` of the standard library: appends one character to the
/// end of the string and leaves all before it as it was.
pub assume_specification[ String::push ](s: &mut String, c: char)
    ensures
        final(s)@ == old(s)@.push(c),
;

/// Why a text is no puzzle.
#[derive(Clone, Copy, Debug, PartialEq, Eq)]
pub enum InvalidSudokuFile {
    /// The text has not exactly nine lines.
    LineCount,
    /// A line has not exactly nine characters.
    ColumnCount,
    /// A line holds this character, which is neither `.` nor a digit `1` to `9`.
    Character(char),
}

impl InvalidSudokuFile {
    /// The fault in words.
    pub fn message(&self) -> (text: String)
        ensures
            text@ == match *self {
                InvalidSudokuFile::LineCount => "sudoku file should contain exactly 9 lines"@,
                InvalidSudokuFile::ColumnCount => "sudoku file should contain exactly 9 columns"@,
                InvalidSudokuFile::Character(c) => "invalid character "@.push(c)
                    + " in sudoku file"@,
            },
    {
        match *self {
            InvalidSudokuFile::LineCount => String::from_str(
                "sudoku file should contain exactly 9 lines",
            ),
            InvalidSudokuFile::ColumnCount => String::from_str(
                "sudoku file should contain exactly 9 columns",
            ),
            InvalidSudokuFile::Character(c) => {
                let mut text = String::from_str("invalid character ");
                text.push(c);
                text.append(" in sudoku file");
                text
            },
        }
    }
}

/// Length of the first line of `s`: the number of characters before its
/// first line feed, or all of them if it has none.
pub open spec fn line_end(s: Seq<char>) -> nat
    decreases s.len(),
{
    if s.len() == 0 || s[0] == '\n' {
        0
    } else {
        1 + line_end(s.drop_first())
    }
}

/// `l` without the carriage return at its end, if it has one there.
pub open spec fn trim_cr(l: Seq<char>) -> Seq<char> {
    if l.len() > 0 && l.last() == '\r' {
        l.drop_last()
    } else {
        l
    }
}

/// The lines of a text. A line ends at a line feed, and a carriage return
/// just before that line feed is no part of the line. The last line needs
/// no line feed; a text that ends in one has no empty line after it.
pub open spec fn lines_of(s: Seq<char>) -> Seq<Seq<char>>
    decreases s.len(),
{
    let e = line_end(s) as int;
    if s.len() == 0 {
        Seq::empty()
    } else if e >= s.len() {
        seq![s]
    } else {
        seq![trim_cr(s.take(e))] + lines_of(s.skip(e + 1))
    }
}

/// What each line of `v` holds.
pub open spec fn line_views(v: Seq<Vec<char>>) -> Seq<Seq<char>> {
    v.map_values(|l: Vec<char>| l@)
}

/// `k` characters without a line feed, and then the end of `s` or a line
/// feed: that is where the first line of `s` ends.
proof fn lemma_line_end(s: Seq<char>, k: int)
    requires
        0 <= k <= s.len(),
        forall|j: int| 0 <= j < k ==> s[j] != '\n',
        k == s.len() || s[k] == '\n',
    ensures
        line_end(s) == k,
    decreases k,
{
    if k > 0 {
        lemma_line_end(s.drop_first(), k - 1);
    }
}

/// Splits a text into its lines.
pub fn split_lines(contents: &str) -> (lines: Vec<Vec<char>>)
    ensures
        line_views(lines@) == lines_of(contents@),
{
    let ghost s = contents@;
    let mut lines: Vec<Vec<char>> = Vec::new();
    let mut cur: Vec<char> = Vec::new();
    proof {
        assert(s.skip(0) == s);
        assert(line_views(lines@) + lines_of(s) == lines_of(s));
    }
    for c in it: contents.chars()
        invariant
            it.seq() == s,
            cur@.len() <= it.index(),
            cur@ == s.subrange(it.index() - cur@.len(), it.index() as int),
            forall|j: int| 0 <= j < cur@.len() ==> cur@[j] != '\n',
            lines_of(s) == line_views(lines@) + lines_of(s.skip(it.index() - cur@.len())),
    {
        let ghost pos = it.index() as int;
        let ghost start = pos - cur@.len();
        if c == '\n' {
            proof {
                let t = s.skip(start);
                assert forall|j: int| 0 <= j < cur@.len() implies t[j] != '\n' by {
                    assert(t[j] == cur@[j]);
                }
                lemma_line_end(t, cur@.len() as int);
                assert(t.take(cur@.len() as int) == cur@);
                assert(t.skip(cur@.len() as int + 1) == s.skip(pos + 1));
            }
            let n = cur.len();
            if n > 0 && cur[n - 1] == '\r' {
                cur.pop();
            }
            assert(cur@ == trim_cr(s.subrange(start, pos)));
            let ghost before = line_views(lines@);
            lines.push(cur);
            assert(line_views(lines@) == before + seq![trim_cr(s.subrange(start, pos))]);
            cur = Vec::new();
            assert(s.subrange(pos + 1, pos + 1) == Seq::<char>::empty());
        } else {
            cur.push(c);
            assert(cur@ == s.subrange(start, pos + 1));
        }
    }
    proof {
        let t = s.skip(s.len() - cur@.len());
        assert(t == cur@);
        lemma_line_end(t, cur@.len() as int);
    }
    if cur.len() > 0 {
        let ghost before = line_views(lines@);
        lines.push(cur);
        assert(line_views(lines@) == before + seq![s.skip(s.len() - cur@.len())]);
    } else {
        assert(line_views(lines@) + Seq::<Seq<char>>::empty() == line_views(lines@));
    }
    lines
}

/// Whether `c` may stand for a cell: `.` for a blank one, a digit `1` to
/// `9` for a given one.
pub open spec fn is_cell_char(c: char) -> bool {
    c == '.' || '1' <= c <= '9'
}

/// The cell that `c` stands for: 0 for `.`, its value for a digit.
pub open spec fn cell_value(c: char) -> u8 {
    if c == '.' {
        0
    } else {
        (c as int - '0' as int) as u8
    }
}

/// A line of nine characters that each stand for a cell.
pub open spec fn well_formed_line(l: Seq<char>) -> bool {
    l.len() == 9 && forall|k: int| 0 <= k < 9 ==> is_cell_char(#[trigger] l[k])
}

/// Nine well-formed lines.
pub open spec fn well_formed(lines: Seq<Seq<char>>) -> bool {
    lines.len() == 9 && forall|j: int| 0 <= j < 9 ==> well_formed_line(#[trigger] lines[j])
}

/// The grid that nine well-formed lines stand for, row after row.
pub open spec fn cells_of(lines: Seq<Seq<char>>) -> Seq<u8> {
    Seq::new(81, |i: int| cell_value(lines[i / 9][i % 9]))
}

/// Line `j` is the first one that is not well-formed.
pub open spec fn first_bad_line(lines: Seq<Seq<char>>, j: int) -> bool {
    &&& 0 <= j < lines.len()
    &&& !well_formed_line(lines[j])
    &&& forall|h: int| 0 <= h < j ==> well_formed_line(#[trigger] lines[h])
}

/// Character `k` of `l` is the first one that stands for no cell.
pub open spec fn first_bad_char(l: Seq<char>, k: int) -> bool {
    &&& 0 <= k < l.len()
    &&& !is_cell_char(l[k])
    &&& forall|h: int| 0 <= h < k ==> is_cell_char(#[trigger] l[h])
}

/// Whether `e` is the fault that is reported of `lines`. A wrong number of
/// lines comes before all else. Otherwise the first line that is not
/// well-formed decides: by its length if that is wrong, else by the first
/// of its characters that stands for no cell.
pub open spec fn is_fault(lines: Seq<Seq<char>>, e: InvalidSudokuFile) -> bool {
    match e {
        InvalidSudokuFile::LineCount => lines.len() != 9,
        InvalidSudokuFile::ColumnCount => lines.len() == 9 && exists|j: int|
            #[trigger] first_bad_line(lines, j) && lines[j].len() != 9,
        InvalidSudokuFile::Character(c) => lines.len() == 9 && exists|j: int, k: int|
            first_bad_line(lines, j) && lines[j].len() == 9 && #[trigger] first_bad_char(
                lines[j],
                k,
            ) && lines[j][k] == c,
    }
}

/// Only one line is the first that is not well-formed.
proof fn lemma_first_bad_line_unique(lines: Seq<Seq<char>>, a: int, b: int)
    requires
        first_bad_line(lines, a),
        first_bad_line(lines, b),
    ensures
        a == b,
{
    if a < b {
        assert(well_formed_line(lines[a]));
    } else if b < a {
        assert(well_formed_line(lines[b]));
    }
}

/// Only one character is the first that stands for no cell.
proof fn lemma_first_bad_char_unique(l: Seq<char>, a: int, b: int)
    requires
        first_bad_char(l, a),
        first_bad_char(l, b),
    ensures
        a == b,
{
    if a < b {
        assert(is_cell_char(l[a]));
    } else if b < a {
        assert(is_cell_char(l[b]));
    }
}

/// The line, and for a wrong character its place in the line, by which
/// nine lines have the fault `e`.
proof fn lemma_fault_place(lines: Seq<Seq<char>>, e: InvalidSudokuFile) -> (at: (int, int))
    requires
        lines.len() == 9,
        is_fault(lines, e),
    ensures
        first_bad_line(lines, at.0),
        e == InvalidSudokuFile::ColumnCount ==> lines[at.0].len() != 9,
        e matches InvalidSudokuFile::Character(c) ==> lines[at.0].len() == 9 && first_bad_char(
            lines[at.0],
            at.1,
        ) && lines[at.0][at.1] == c,
{
    match e {
        InvalidSudokuFile::LineCount => (0, 0),
        InvalidSudokuFile::ColumnCount => {
            let j = choose|j: int| #[trigger] first_bad_line(lines, j) && lines[j].len() != 9;
            (j, 0)
        },
        InvalidSudokuFile::Character(c) => {
            choose|j: int, k: int|
                first_bad_line(lines, j) && lines[j].len() == 9 && #[trigger] first_bad_char(
                    lines[j],
                    k,
                ) && lines[j][k] == c
        },
    }
}

/// Lines that are well-formed have no fault, and lines that are not have
/// exactly one.
pub proof fn lemma_fault_unique(lines: Seq<Seq<char>>, e1: InvalidSudokuFile, e2: InvalidSudokuFile)
    requires
        is_fault(lines, e1),
    ensures
        !well_formed(lines),
        is_fault(lines, e2) ==> e1 == e2,
{
    if lines.len() == 9 {
        let (j1, k1) = lemma_fault_place(lines, e1);
        assert(!well_formed_line(lines[j1]));
        if is_fault(lines, e2) {
            let (j2, k2) = lemma_fault_place(lines, e2);
            lemma_first_bad_line_unique(lines, j1, j2);
            if e1 is Character && e2 is Character {
                lemma_first_bad_char_unique(lines[j1], k1, k2);
            }
        }
    }
}

/// Reads a puzzle. The text must hold nine lines, split as `lines_of`
/// says, of nine characters each, a digit `1` to `9` for a given cell and
/// `.` for a blank one. Such a text yields its grid, row after row; any
/// other yields its fault, which `is_fault` tells and `lemma_fault_unique`
/// shows to be the only one.
pub fn parse(contents: &str) -> (r: Result<[u8; 81], InvalidSudokuFile>)
    ensures
        r is Ok <==> well_formed(lines_of(contents@)),
        r matches Ok(grid) ==> grid@ == cells_of(lines_of(contents@)),
        r matches Err(e) ==> is_fault(lines_of(contents@), e),
{
    let lines = split_lines(contents);
    let ghost ls = lines_of(contents@);
    if lines.len() != 9 {
        return Err(InvalidSudokuFile::LineCount);
    }
    let mut grid = [0u8; 81];
    let mut j: usize = 0;
    while j < 9
        invariant
            j <= 9,
            lines@.len() == 9,
            ls.len() == 9,
            ls == lines_of(contents@),
            ls == line_views(lines@),
            forall|h: int| 0 <= h < j ==> well_formed_line(#[trigger] ls[h]),
            forall|i: int| 0 <= i < 9 * j ==> grid@[i] == cell_value(ls[i / 9][i % 9]),
        decreases 9 - j,
    {
        let line = &lines[j];
        assert(line@ == ls[j as int]);
        if line.len() != 9 {
            assert(first_bad_line(ls, j as int));
            return Err(InvalidSudokuFile::ColumnCount);
        }
        let mut k: usize = 0;
        while k < 9
            invariant
                j < 9,
                k <= 9,
                ls.len() == 9,
                ls == lines_of(contents@),
                line@.len() == 9,
                line@ == ls[j as int],
                forall|h: int| 0 <= h < k ==> is_cell_char(#[trigger] line@[h]),
                forall|h: int| 0 <= h < j ==> well_formed_line(#[trigger] ls[h]),
                forall|i: int|
                    0 <= i < 9 * j + k ==> grid@[i] == cell_value(ls[i / 9][i % 9]),
            decreases 9 - k,
        {
            let c = line[k];
            let v: u8 = if c == '.' {
                0
            } else if '1' <= c && c <= '9' {
                (c as u32 - '0' as u32) as u8
            } else {
                assert(first_bad_char(ls[j as int], k as int));
                assert(first_bad_line(ls, j as int));
                return Err(InvalidSudokuFile::Character(c));
            };
            let ghost before = grid@;
            grid[j * 9 + k] = v;
            assert forall|i: int| 0 <= i < 9 * j + k + 1 implies grid@[i] == cell_value(
                ls[i / 9][i % 9],
            ) by {
                if i < 9 * j + k {
                    assert(grid@[i] == before[i]);
                }
            }
            k += 1;
        }
        j += 1;
    }
    assert(well_formed(ls));
    assert(grid@ =~= cells_of(ls));
    Ok(grid)
}

/// The numeral of `d`, for `d` from 0 to 9.
pub open spec fn digit_char(d: u8) -> char {
    ('0' as int + d) as char
}

/// How a cell is drawn: a blank for 0, else its value in decimal.
pub open spec fn glyph(n: u8) -> Seq<char> {
    if n == 0 {
        seq![' ']
    } else if n < 10 {
        seq![digit_char(n)]
    } else if n < 100 {
        seq![digit_char(n / 10), digit_char(n % 10)]
    } else {
        seq![digit_char(n / 100), digit_char(n / 10 % 10), digit_char(n % 10)]
    }
}

/// The line that is drawn above every third row and below the last.
pub open spec fn rule() -> Seq<char> {
    "+-----+-----+-----+\n"@
}

/// The first `k` cells of row `r` as they are drawn: a bar, then each
/// cell with a bar after it.
pub open spec fn row_start(g: Seq<u8>, r: int, k: nat) -> Seq<char>
    decreases k,
{
    if k == 0 {
        seq!['|']
    } else {
        row_start(g, r, (k - 1) as nat) + glyph(g[9 * r + k - 1]).push('|')
    }
}

/// The first `r` rows as they are drawn, one line each, with a rule above
/// the first, the fourth and the seventh.
pub open spec fn rows_start(g: Seq<u8>, r: nat) -> Seq<char>
    decreases r,
{
    if r == 0 {
        Seq::empty()
    } else {
        rows_start(g, (r - 1) as nat) + (if (r - 1) % 3 == 0 {
            rule()
        } else {
            Seq::empty()
        }) + row_start(g, r - 1, 9).push('\n')
    }
}

/// The drawing of a grid: its nine rows and a rule below them.
pub open spec fn drawing(g: Seq<u8>) -> Seq<char> {
    rows_start(g, 9) + rule()
}

/// The numeral of `d`.
fn numeral(d: u8) -> (c: char)
    requires
        d <= 9,
    ensures
        c == digit_char(d),
{
    (48u8 + d) as char
}

/// Appends the drawing of one cell.
fn push_cell(text: &mut String, n: u8)
    ensures
        final(text)@ == old(text)@ + glyph(n),
{
    if n == 0 {
        text.push(' ');
    } else {
        if n >= 100 {
            text.push(numeral(n / 100));
        }
        if n >= 10 {
            text.push(numeral(n / 10 % 10));
        }
        text.push(numeral(n % 10));
    }
    assert(text@ =~= old(text)@ + glyph(n));
}

/// Draws a grid: one line for each row, with a bar before and after each
/// cell, and a rule above every third row and below the last.
pub fn render(sudoku: &[u8; 81]) -> (text: String)
    ensures
        text@ == drawing(sudoku@),
{
    let ghost g = sudoku@;
    let mut text = String::new();
    let mut r: usize = 0;
    while r < 9
        invariant
            r <= 9,
            g == sudoku@,
            text@ == rows_start(g, r as nat),
        decreases 9 - r,
    {
        let ghost above = text@;
        if r % 3 == 0 {
            text.append("+-----+-----+-----+\n");
        }
        let ghost ruled = text@;
        text.push('|');
        let mut k: usize = 0;
        while k < 9
            invariant
                r < 9,
                k <= 9,
                g == sudoku@,
                text@ == ruled + row_start(g, r as int, k as nat),
            decreases 9 - k,
        {
            push_cell(&mut text, sudoku[r * 9 + k]);
            text.push('|');
            assert(text@ =~= ruled + row_start(g, r as int, (k + 1) as nat));
            k += 1;
        }
        text.push('\n');
        assert(text@ =~= rows_start(g, (r + 1) as nat)) by {
            assert(ruled =~= above + (if r % 3 == 0 {
                rule()
            } else {
                Seq::empty()
            }));
        }
        r += 1;
    }
    text.append("+-----+-----+-----+\n");
    text
}

} // verus!
