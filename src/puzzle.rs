//! Puzzles, solutions, and the errors of building a puzzle.
use vstd::prelude::*;

use crate::grid::{
    cell_at, col_of, flatten, lemma_cell_coords, lemma_coords_cell, lemma_flatten_injective, row_of,
};
use crate::text::{
    bordered_text, compact_text, read_rows, render_bordered, render_compact, text_rows,
};

verus! {

/// An unsolved Sudoku puzzle: a 9×9 grid of values in `0..=9`, where 0 marks
/// an unfilled cell.
#[derive(Copy, Clone, Debug, PartialEq, Eq, Hash)]
pub struct Puzzle(pub(crate) [[u8; 9]; 9]);

impl Puzzle {
    #[verifier::type_invariant]
    pub(crate) open spec fn cells_in_range(self) -> bool {
        forall|k: int| 0 <= k < 81 ==> #[trigger] flatten(self.0)[k] <= 9
    }
}

impl View for Puzzle {
    type V = Seq<u8>;

    /// The puzzle's cells in row-major order.
    open(crate) spec fn view(&self) -> Seq<u8> {
        flatten(self.0)
    }
}

} // verus!

verus! {

/// A solution to a Sudoku puzzle, as returned by `Puzzle::solve`.
#[derive(Copy, Clone, Debug, PartialEq, Eq, Hash)]
pub struct Solution(pub(crate) [[u8; 9]; 9]);

impl Solution {
    #[verifier::type_invariant]
    pub(crate) open spec fn cells_are_digits(self) -> bool {
        forall|k: int| 0 <= k < 81 ==> 1 <= #[trigger] flatten(self.0)[k] <= 9
    }
}

impl View for Solution {
    type V = Seq<u8>;

    /// The solution's cells in row-major order.
    open(crate) spec fn view(&self) -> Seq<u8> {
        flatten(self.0)
    }
}

/// Why a grid could not be turned into a `Puzzle`.
#[derive(Copy, Clone, Debug, PartialEq, Eq, Hash, Structural)]
pub enum TryIntoPuzzleError {
    /// A cell holds a value larger than 9; the value is carried.
    NumTooBig(u8),
    /// A row is not exactly 9 cells long.
    BadRowSize,
    /// The grid is not exactly 9 rows long.
    BadGridSize,
}

} // verus!

verus! {

/// `k` is the first position of `g` that holds a value above 9.
pub open spec fn first_too_big(g: Seq<u8>, k: int) -> bool {
    0 <= k < g.len() && g[k] > 9 && forall|j: int| 0 <= j < k ==> #[trigger] g[j] <= 9
}

/// What checking the cells `g` gives: `g` itself when every value is at
/// most 9, else the first value above 9.
pub open spec fn check_cells(g: Seq<u8>) -> Result<Seq<u8>, TryIntoPuzzleError> {
    if forall|k: int| 0 <= k < g.len() ==> #[trigger] g[k] <= 9 {
        Ok(g)
    } else {
        Err(TryIntoPuzzleError::NumTooBig(g[choose|k: int| first_too_big(g, k)]))
    }
}

/// The cells of nine rows of nine, in row-major order.
pub open spec fn row_cells(rows: Seq<Seq<u8>>) -> Seq<u8> {
    Seq::new(81, |k: int| rows[row_of(k)][col_of(k)])
}

/// What checking a grid given as rows gives: a row that is not 9 long is
/// reported first, then a grid that is not 9 rows long, then a value above 9.
pub open spec fn check_rows(rows: Seq<Seq<u8>>) -> Result<Seq<u8>, TryIntoPuzzleError> {
    if exists|r: int| 0 <= r < rows.len() && #[trigger] rows[r].len() != 9 {
        Err(TryIntoPuzzleError::BadRowSize)
    } else if rows.len() != 9 {
        Err(TryIntoPuzzleError::BadGridSize)
    } else {
        check_cells(row_cells(rows))
    }
}

/// The cells of a built puzzle, or the error.
pub open spec fn puzzle_cells(r: Result<Puzzle, TryIntoPuzzleError>) -> Result<Seq<u8>, TryIntoPuzzleError> {
    match r {
        Ok(p) => Ok(p@),
        Err(e) => Err(e),
    }
}

proof fn lemma_first_too_big_unique(g: Seq<u8>, k: int)
    requires
        first_too_big(g, k),
    ensures
        check_cells(g) == Err::<Seq<u8>, TryIntoPuzzleError>(TryIntoPuzzleError::NumTooBig(g[k])),
{
    let c = choose|c: int| first_too_big(g, c);
    assert(first_too_big(g, c));
    if c < k {
        assert(g[c] <= 9);
    } else if c > k {
        assert(g[k] <= 9);
    }
}

impl Puzzle {
    /// Build a puzzle from a 9×9 grid, rejecting the first cell (in
    /// row-major order) whose value is above 9.
    pub fn from_grid(value: [[u8; 9]; 9]) -> (r: Result<Puzzle, TryIntoPuzzleError>)
        ensures
            puzzle_cells(r) == check_cells(flatten(value)),
    {
        let mut i: usize = 0;
        while i < 9
            invariant
                i <= 9,
                forall|k: int| 0 <= k < cell_at(i as int, 0) ==> #[trigger] flatten(value)[k] <= 9,
            decreases 9 - i,
        {
            let row = value[i];
            let mut j: usize = 0;
            while j < 9
                invariant
                    i < 9,
                    j <= 9,
                    row == value@[i as int],
                    forall|k: int| 0 <= k < cell_at(i as int, j as int) ==> #[trigger] flatten(value)[k] <= 9,
                decreases 9 - j,
            {
                let cell = row[j];
                proof {
                    lemma_coords_cell(i as int, j as int);
                    assert(flatten(value)[cell_at(i as int, j as int)] == cell);
                }
                if cell > 9 {
                    proof {
                        lemma_first_too_big_unique(flatten(value), cell_at(i as int, j as int));
                    }
                    return Err(TryIntoPuzzleError::NumTooBig(cell));
                }
                j = j + 1;
            }
            i = i + 1;
        }
        let p = Puzzle(value);
        assert(check_cells(flatten(value)) == Ok::<Seq<u8>, TryIntoPuzzleError>(flatten(value)));
        Ok(p)
    }
}

} // verus!

verus! {

/// The rows of a slice of row slices, as sequences.
pub open spec fn slice_rows(rows: &[&[u8]]) -> Seq<Seq<u8>> {
    rows@.map_values(|row: &[u8]| row@)
}

/// The rows of a vector of row vectors, as sequences.
pub open spec fn vec_rows(rows: &Vec<Vec<u8>>) -> Seq<Seq<u8>> {
    rows@.map_values(|row: Vec<u8>| row@)
}

/// A copy of a row of exactly nine cells.
fn copy_row(row: &[u8]) -> (r: [u8; 9])
    requires
        row@.len() == 9,
    ensures
        r@ == row@,
{
    let mut a = [0u8; 9];
    let mut j: usize = 0;
    while j < 9
        invariant
            j <= 9,
            row@.len() == 9,
            forall|c: int| 0 <= c < j ==> #[trigger] a@[c] == row@[c],
        decreases 9 - j,
    {
        a[j] = row[j];
        j = j + 1;
    }
    assert(a@ =~= row@);
    a
}

proof fn lemma_grid_of_rows(grid: [[u8; 9]; 9], rows: Seq<Seq<u8>>)
    requires
        rows.len() == 9,
        forall|r: int| 0 <= r < 9 ==> #[trigger] grid@[r]@ == rows[r],
    ensures
        flatten(grid) == row_cells(rows),
{
    assert forall|k: int| 0 <= k < 81 implies flatten(grid)[k] == row_cells(rows)[k] by {
        lemma_cell_coords(k);
    }
    assert(flatten(grid) =~= row_cells(rows));
}

impl Puzzle {
    /// Build a puzzle from rows given as slices: every row must be 9 cells
    /// long, there must be 9 rows, and every value must be at most 9.
    pub fn from_rows(rows: &[&[u8]]) -> (r: Result<Puzzle, TryIntoPuzzleError>)
        ensures
            puzzle_cells(r) == check_rows(slice_rows(rows)),
    {
        let ghost v = slice_rows(rows);
        let mut grid = [[0u8; 9]; 9];
        let mut i: usize = 0;
        while i < rows.len()
            invariant
                i <= rows@.len(),
                v == slice_rows(rows),
                forall|r: int| 0 <= r < i ==> #[trigger] v[r].len() == 9,
                forall|r: int| 0 <= r < i && r < 9 ==> #[trigger] grid@[r]@ == v[r],
            decreases rows@.len() - i,
        {
            let row = rows[i];
            if row.len() != 9 {
                assert(v[i as int].len() != 9);
                return Err(TryIntoPuzzleError::BadRowSize);
            }
            if i < 9 {
                grid[i] = copy_row(row);
            }
            i = i + 1;
        }
        if rows.len() != 9 {
            return Err(TryIntoPuzzleError::BadGridSize);
        }
        proof {
            lemma_grid_of_rows(grid, v);
        }
        Puzzle::from_grid(grid)
    }

    /// Build a puzzle from rows given as vectors, as `from_rows` does.
    pub fn from_vec_rows(rows: &Vec<Vec<u8>>) -> (r: Result<Puzzle, TryIntoPuzzleError>)
        ensures
            puzzle_cells(r) == check_rows(vec_rows(rows)),
    {
        let ghost v = vec_rows(rows);
        let mut grid = [[0u8; 9]; 9];
        let mut i: usize = 0;
        while i < rows.len()
            invariant
                i <= rows@.len(),
                v == vec_rows(rows),
                forall|r: int| 0 <= r < i ==> #[trigger] v[r].len() == 9,
                forall|r: int| 0 <= r < i && r < 9 ==> #[trigger] grid@[r]@ == v[r],
            decreases rows@.len() - i,
        {
            let row = rows[i].as_slice();
            if row.len() != 9 {
                assert(v[i as int].len() != 9);
                return Err(TryIntoPuzzleError::BadRowSize);
            }
            if i < 9 {
                grid[i] = copy_row(row);
            }
            i = i + 1;
        }
        if rows.len() != 9 {
            return Err(TryIntoPuzzleError::BadGridSize);
        }
        proof {
            lemma_grid_of_rows(grid, v);
        }
        Puzzle::from_grid(grid)
    }
}

} // verus!

verus! {

impl TryFrom<[[u8; 9]; 9]> for Puzzle {
    type Error = TryIntoPuzzleError;

    /// See `Puzzle::from_grid`.
    fn try_from(value: [[u8; 9]; 9]) -> (r: Result<Puzzle, TryIntoPuzzleError>)
        ensures
            puzzle_cells(r) == check_cells(flatten(value)),
    {
        let r = Puzzle::from_grid(value);
        proof {
            if let Ok(p) = r {
                lemma_flatten_injective(p.0, value);
            }
        }
        r
    }
}

impl vstd::std_specs::convert::TryFromSpecImpl<[[u8; 9]; 9]> for Puzzle {
    open spec fn obeys_try_from_spec() -> bool {
        true
    }

    closed spec fn try_from_spec(value: [[u8; 9]; 9]) -> Result<Puzzle, TryIntoPuzzleError> {
        match check_cells(flatten(value)) {
            Ok(_) => Ok(Puzzle(value)),
            Err(e) => Err(e),
        }
    }
}

} // verus!

verus! {

/// The puzzle that a successful check of cells `g` gives.
spec fn checked_puzzle(g: Result<Seq<u8>, TryIntoPuzzleError>) -> Result<Puzzle, TryIntoPuzzleError> {
    match g {
        Ok(cells) => Ok(Puzzle(choose|a: [[u8; 9]; 9]| flatten(a) == cells)),
        Err(e) => Err(e),
    }
}

proof fn lemma_checked_puzzle(r: Result<Puzzle, TryIntoPuzzleError>)
    ensures
        checked_puzzle(puzzle_cells(r)) == r,
{
    if let Ok(p) = r {
        let a = choose|a: [[u8; 9]; 9]| flatten(a) == p@;
        assert(flatten(p.0) == p@);
        lemma_flatten_injective(a, p.0);
    }
}

impl<'a, 'b> TryFrom<&'a [&'b [u8]]> for Puzzle {
    type Error = TryIntoPuzzleError;

    /// See `Puzzle::from_rows`.
    fn try_from(value: &'a [&'b [u8]]) -> (r: Result<Puzzle, TryIntoPuzzleError>)
        ensures
            puzzle_cells(r) == check_rows(slice_rows(value)),
    {
        let r = Puzzle::from_rows(value);
        proof {
            lemma_checked_puzzle(r);
        }
        r
    }
}

impl<'a, 'b> vstd::std_specs::convert::TryFromSpecImpl<&'a [&'b [u8]]> for Puzzle {
    open spec fn obeys_try_from_spec() -> bool {
        true
    }

    closed spec fn try_from_spec(value: &'a [&'b [u8]]) -> Result<Puzzle, TryIntoPuzzleError> {
        checked_puzzle(check_rows(slice_rows(value)))
    }
}

impl TryFrom<Vec<Vec<u8>>> for Puzzle {
    type Error = TryIntoPuzzleError;

    /// See `Puzzle::from_vec_rows`.
    fn try_from(value: Vec<Vec<u8>>) -> (r: Result<Puzzle, TryIntoPuzzleError>)
        ensures
            puzzle_cells(r) == check_rows(vec_rows(&value)),
    {
        let r = Puzzle::from_vec_rows(&value);
        proof {
            lemma_checked_puzzle(r);
        }
        r
    }
}

impl vstd::std_specs::convert::TryFromSpecImpl<Vec<Vec<u8>>> for Puzzle {
    open spec fn obeys_try_from_spec() -> bool {
        true
    }

    closed spec fn try_from_spec(value: Vec<Vec<u8>>) -> Result<Puzzle, TryIntoPuzzleError> {
        checked_puzzle(check_rows(vec_rows(&value)))
    }
}

impl From<Solution> for [[u8; 9]; 9] {
    fn from(value: Solution) -> (r: [[u8; 9]; 9])
        ensures
            flatten(r) == value@,
    {
        value.0
    }
}

impl vstd::std_specs::convert::FromSpecImpl<Solution> for [[u8; 9]; 9] {
    open spec fn obeys_from_spec() -> bool {
        true
    }

    closed spec fn from_spec(value: Solution) -> [[u8; 9]; 9] {
        value.0
    }
}

impl std::ops::Deref for Puzzle {
    type Target = [[u8; 9]; 9];

    /// The rows of the puzzle; 0 marks an unfilled cell.
    fn deref(&self) -> (r: &[[u8; 9]; 9])
        ensures
            flatten(*r) == self@,
    {
        &self.0
    }
}

impl std::ops::Deref for Solution {
    type Target = [[u8; 9]; 9];

    /// The rows of the solution.
    fn deref(&self) -> (r: &[[u8; 9]; 9])
        ensures
            flatten(*r) == self@,
    {
        &self.0
    }
}

} // verus!

verus! {

impl Puzzle {
    /// Read a puzzle from text: each non-blank line is a row, a digit is a
    /// cell's value, any other character that is not white space is an
    /// unfilled cell, and white space is skipped. The rows are then checked
    /// as `from_vec_rows` does.
    pub fn parse(s: &str) -> (r: Result<Puzzle, TryIntoPuzzleError>)
        ensures
            puzzle_cells(r) == check_rows(text_rows(s@)),
    {
        let rows = read_rows(s);
        Puzzle::from_vec_rows(&rows)
    }

    /// Nine lines of nine digits, 0 for an unfilled cell, with no newline
    /// after the last line.
    pub fn to_string(&self) -> (r: String)
        ensures
            r@ == compact_text(self@),
    {
        proof {
            use_type_invariant(self);
        }
        render_compact(&self.0)
    }

    /// The grid in a border, with groups of three separated and unfilled
    /// cells left blank, with no newline after the last line.
    pub fn to_pretty_string(&self) -> (r: String)
        ensures
            r@ == bordered_text(self@, true),
    {
        proof {
            use_type_invariant(self);
        }
        render_bordered(&self.0, true)
    }
}

impl Solution {
    /// Nine lines of nine digits, with no newline after the last line.
    pub fn to_string(&self) -> (r: String)
        ensures
            r@ == compact_text(self@),
    {
        proof {
            use_type_invariant(self);
        }
        render_compact(&self.0)
    }

    /// The grid in a border, with groups of three separated, with no newline
    /// after the last line.
    pub fn to_pretty_string(&self) -> (r: String)
        ensures
            r@ == bordered_text(self@, false),
    {
        proof {
            use_type_invariant(self);
        }
        render_bordered(&self.0, false)
    }
}

impl std::str::FromStr for Puzzle {
    type Err = TryIntoPuzzleError;

    /// See `Puzzle::parse`.
    fn from_str(s: &str) -> (r: Result<Puzzle, TryIntoPuzzleError>)
        ensures
            puzzle_cells(r) == check_rows(text_rows(s@)),
    {
        Puzzle::parse(s)
    }
}

} // verus!
