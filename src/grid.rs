//! Turning the lines of a text grid into a `Grid`.
//!
//! In a text grid each row is one line; the digits `0` to `9` and `.` are
//! cells (`.` and `0` both mean empty) and every other character is ignored.
//! Lines that do not hold exactly nine cells are skipped.
use vstd::prelude::*;

use crate::rules::{view_of, well_formed};
use crate::Grid;

verus! {

/// Why a text grid could not be read.
#[derive(Debug)]
pub enum GridError {
    /// The text held this many rows of nine cells, where nine were expected.
    WrongRowCount(usize),
}

/// A source of grids, read from a file.
pub trait GridLoader {
    fn load_grid(file: &str) -> Result<Grid, GridError>;
}

/// Reads grids written as text, one row per line.
pub struct TextFileReader {}

/// Whether `c` stands for a cell.
pub open spec fn is_cell_char(c: char) -> bool {
    c == '.' || ('0' <= c && c <= '9')
}

/// The value of a cell character: `.` is empty, a digit is itself.
pub open spec fn cell_value(c: char) -> u8 {
    if c == '.' {
        0
    } else {
        (c as u32 - '0' as u32) as u8
    }
}

/// The cells of a line, in order.
pub open spec fn cells_of(s: Seq<char>) -> Seq<u8>
    decreases s.len(),
{
    if s.len() == 0 {
        seq![]
    } else if is_cell_char(s.last()) {
        cells_of(s.drop_last()).push(cell_value(s.last()))
    } else {
        cells_of(s.drop_last())
    }
}

/// The rows of a text: the cells of each line that holds exactly nine.
pub open spec fn rows_of(lines: Seq<Seq<char>>) -> Seq<Seq<u8>>
    decreases lines.len(),
{
    if lines.len() == 0 {
        seq![]
    } else if cells_of(lines.last()).len() == 9 {
        rows_of(lines.drop_last()).push(cells_of(lines.last()))
    } else {
        rows_of(lines.drop_last())
    }
}

proof fn lemma_cells_bounded(s: Seq<char>)
    ensures
        forall|k: int| 0 <= k < cells_of(s).len() ==> #[trigger] cells_of(s)[k] <= 9,
    decreases s.len(),
{
    if s.len() > 0 {
        let p = s.drop_last();
        lemma_cells_bounded(p);
        let c = s.last();
        if is_cell_char(c) {
            assert(cell_value(c) <= 9) by {
                if c != '.' {
                    assert('0' as u32 <= c as u32 <= '9' as u32);
                }
            }
            assert forall|k: int| 0 <= k < cells_of(s).len() implies #[trigger] cells_of(s)[k] <= 9 by {
                if k < cells_of(p).len() {
                    assert(cells_of(s)[k] == cells_of(p)[k]);
                }
            }
        }
    }
}

proof fn lemma_rows_shape(lines: Seq<Seq<char>>)
    ensures
        forall|k: int| 0 <= k < rows_of(lines).len() ==> (#[trigger] rows_of(lines)[k]).len() == 9,
        forall|k: int, t: int|
            0 <= k < rows_of(lines).len() && 0 <= t < 9 ==> #[trigger] rows_of(lines)[k][t] <= 9,
    decreases lines.len(),
{
    if lines.len() > 0 {
        let p = lines.drop_last();
        lemma_rows_shape(p);
        lemma_cells_bounded(lines.last());
        if cells_of(lines.last()).len() == 9 {
            assert forall|k: int| 0 <= k < rows_of(lines).len() implies
                (#[trigger] rows_of(lines)[k]).len() == 9
                && forall|t: int| 0 <= t < 9 ==> rows_of(lines)[k][t] <= 9 by {
                if k < rows_of(p).len() {
                    assert(rows_of(lines)[k] == rows_of(p)[k]);
                }
            }
        }
    }
}

impl TextFileReader {
    /// The cells of one line of a text grid.
    pub fn parse_line(line: &str) -> (r: Vec<u8>)
        ensures
            r@ == cells_of(line@),
    {
        let n = line.unicode_len();
        let mut row: Vec<u8> = Vec::new();
        let mut k: usize = 0;
        while k < n
            invariant
                n == line@.len(),
                k <= n,
                row@ == cells_of(line@.subrange(0, k as int)),
            decreases n - k,
        {
            let c = line.get_char(k);
            assert(line@.subrange(0, k + 1).drop_last() =~= line@.subrange(0, k as int));
            if c == '.' {
                row.push(0);
            } else if '0' <= c && c <= '9' {
                row.push((c as u32 - '0' as u32) as u8);
            }
            k += 1;
        }
        assert(line@.subrange(0, n as int) =~= line@);
        row
    }

    /// The grid written by `lines`, or the number of nine-cell rows found when
    /// that number is not nine.
    pub fn parse_grid(lines: &Vec<String>) -> (r: Result<Grid, GridError>)
        ensures
            match r {
                Ok(g) => view_of(&g) == rows_of(lines@.map_values(|l: String| l@))
                    && well_formed(view_of(&g)),
                Err(GridError::WrongRowCount(n)) => rows_of(lines@.map_values(|l: String| l@)).len()
                    != 9 && n == rows_of(lines@.map_values(|l: String| l@)).len(),
            },
    {
        let ghost text = lines@.map_values(|l: String| l@);
        let mut grid: Grid = Vec::new();
        let mut k: usize = 0;
        while k < lines.len()
            invariant
                k <= lines@.len(),
                text == lines@.map_values(|l: String| l@),
                view_of(&grid) == rows_of(text.subrange(0, k as int)),
            decreases lines@.len() - k,
        {
            let row = Self::parse_line(lines[k].as_str());
            assert(text.subrange(0, k + 1).drop_last() =~= text.subrange(0, k as int));
            let ghost before = grid;
            if row.len() == 9 {
                grid.push(row);
                assert(view_of(&grid) =~= view_of(&before).push(row@));
            }
            k += 1;
        }
        assert(text.subrange(0, lines@.len() as int) =~= text);
        proof {
            lemma_rows_shape(text);
        }
        if grid.len() != 9 {
            return Err(GridError::WrongRowCount(grid.len()));
        }
        Ok(grid)
    }
}

} // verus!
