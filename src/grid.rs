//! The puzzle: its size, its row and column clues, and its cells, held in an
//! `array2d::Array2D`.
use array2d::Array2D;
use vstd::prelude::*;

use crate::line::{check, clues_positive, line_valid};

verus! {

#[verifier::external_type_specification]
#[verifier::external_body]
#[verifier::reject_recursive_types(T)]
pub struct ExArray2D<T>(Array2D<T>);

/// The cells of a board, row by row.
pub uninterp spec fn board_cells(b: Array2D<bool>) -> Seq<Seq<bool>>;

/// The number of columns of a board.
pub uninterp spec fn board_width(b: Array2D<bool>) -> nat;

/// Relies on `Array2D::filled_with`: `rows` rows of `columns` copies of the
/// element; it multiplies the two, so their product must fit.
#[verifier::external_body]
fn board_filled(rows: usize, columns: usize) -> (b: Array2D<bool>)
    requires
        rows * columns <= usize::MAX,
    ensures
        board_cells(b) == Seq::new(rows as nat, |i: int| Seq::new(columns as nat, |j: int| false)),
        board_width(b) == columns,
{
    Array2D::filled_with(false, rows, columns)
}

/// Relies on `Array2D`'s `Index<(usize, usize)>`: the element at a row and
/// column inside the board (it panics outside).
#[verifier::external_body]
fn board_get(b: &Array2D<bool>, row: usize, col: usize) -> (r: bool)
    requires
        row < board_cells(*b).len(),
        col < board_width(*b),
    ensures
        r == board_cells(*b)[row as int][col as int],
{
    b[(row, col)]
}

/// Relies on `Array2D`'s `IndexMut<(usize, usize)>`: writes one element inside
/// the board (it panics outside).
#[verifier::external_body]
fn board_set(b: &mut Array2D<bool>, row: usize, col: usize, val: bool)
    requires
        row < board_cells(*old(b)).len(),
        col < board_width(*old(b)),
    ensures
        board_cells(*final(b)) == board_cells(*old(b)).update(
            row as int,
            board_cells(*old(b))[row as int].update(col as int, val),
        ),
        board_width(*final(b)) == board_width(*old(b)),
{
    b[(row, col)] = val;
}

/// Relies on `Array2D::as_rows`: the rows, in order; it fails on a board
/// with rows but no columns.
#[verifier::external_body]
fn board_rows(b: &Array2D<bool>) -> (r: Vec<Vec<bool>>)
    requires
        board_cells(*b).len() == 0 || board_width(*b) > 0,
    ensures
        r@.len() == board_cells(*b).len(),
        forall|i: int| 0 <= i < r@.len() ==> (#[trigger] r@[i])@ == board_cells(*b)[i],
{
    b.as_rows()
}

/// Relies on `Array2D::as_columns`: the columns, in order.
#[verifier::external_body]
fn board_columns(b: &Array2D<bool>) -> (r: Vec<Vec<bool>>)
    ensures
        r@.len() == board_width(*b),
        forall|j: int| 0 <= j < r@.len() ==> (#[trigger] r@[j])@ == column_of(board_cells(*b), j),
{
    b.as_columns()
}

/// Column `j` of a grid given row by row.
pub open spec fn column_of(cells: Seq<Seq<bool>>, j: int) -> Seq<bool> {
    Seq::new(cells.len(), |i: int| cells[i][j])
}

/// The clue sequences as sequences.
pub open spec fn rules_view(rules: Seq<Vec<usize>>) -> Seq<Seq<usize>> {
    Seq::new(rules.len(), |i: int| rules[i]@)
}

/// `rules` has one clue sequence per line, each clue at least one cell long.
pub open spec fn rules_ok(rules: Seq<Vec<usize>>, size: nat) -> bool {
    rules.len() == size && forall|i: int| 0 <= i < rules.len() ==> clues_positive(#[trigger] rules[i]@)
}

/// Every row and every column of `cells` holds its clues.
pub open spec fn solved(cells: Seq<Seq<bool>>, rows: Seq<Seq<usize>>, cols: Seq<Seq<usize>>) -> bool {
    forall|i: int|
        0 <= i < rows.len() ==> line_valid(#[trigger] cells[i], rows[i]) && line_valid(column_of(cells, i), cols[i])
}

/// A square puzzle: its cells and the run clues of its rows and columns.
#[derive(Debug)]
pub struct Nonogram {
    pub size: usize,
    pub board: Array2D<bool>,
    pub col_rules: Vec<Vec<usize>>,
    pub row_rules: Vec<Vec<usize>>,
}

impl Nonogram {
    /// The board is `size` by `size` and each line has its clues.
    pub open spec fn wf(&self) -> bool {
        &&& self.size * self.size <= usize::MAX
        &&& board_cells(self.board).len() == self.size
        &&& board_width(self.board) == self.size
        &&& forall|i: int| 0 <= i < self.size ==> (#[trigger] board_cells(self.board)[i]).len() == self.size
        &&& rules_ok(self.row_rules@, self.size as nat)
        &&& rules_ok(self.col_rules@, self.size as nat)
    }

    /// The cells, row by row.
    pub open spec fn cells(&self) -> Seq<Seq<bool>> {
        board_cells(self.board)
    }

    /// A puzzle with every cell empty.
    pub fn new(size: usize, col_rules: Vec<Vec<usize>>, row_rules: Vec<Vec<usize>>) -> (p: Nonogram)
        requires
            size * size <= usize::MAX,
            rules_ok(row_rules@, size as nat),
            rules_ok(col_rules@, size as nat),
        ensures
            p.wf(),
            p.size == size,
            p.row_rules@ == row_rules@,
            p.col_rules@ == col_rules@,
            p.cells() == Seq::new(size as nat, |i: int| Seq::new(size as nat, |j: int| false)),
    {
        Nonogram { size, board: board_filled(size, size), col_rules, row_rules }
    }

    /// Fills (`true`) or empties one cell.
    pub fn set(&mut self, row: usize, col: usize, val: bool)
        requires
            old(self).wf(),
            row < old(self).size,
            col < old(self).size,
        ensures
            final(self).wf(),
            final(self).size == old(self).size,
            final(self).row_rules@ == old(self).row_rules@,
            final(self).col_rules@ == old(self).col_rules@,
            final(self).cells() == old(self).cells().update(row as int, old(self).cells()[row as int].update(col as int, val)),
    {
        board_set(&mut self.board, row, col, val);
        proof {
            let c = board_cells(self.board);
            assert forall|i: int| 0 <= i < self.size implies (#[trigger] c[i]).len() == self.size by {
                if i != row {
                    assert(c[i] == old(self).cells()[i]);
                }
            }
        }
    }

    /// Whether a cell is filled.
    pub fn get(&self, row: usize, col: usize) -> (r: bool)
        requires
            self.wf(),
            row < self.size,
            col < self.size,
        ensures
            r == self.cells()[row as int][col as int],
    {
        board_get(&self.board, row, col)
    }

    /// The number of rows, which is also the number of columns.
    pub fn get_size(&self) -> (r: usize)
        ensures
            r == self.size,
    {
        self.size
    }

    /// Whether every row and every column holds its clues.
    pub fn validate(&self) -> (r: bool)
        requires
            self.wf(),
        ensures
            r == solved(self.cells(), rules_view(self.row_rules@), rules_view(self.col_rules@)),
    {
        let rows = board_rows(&self.board);
        let cols = board_columns(&self.board);
        let mut i: usize = 0;
        while i < self.size
            invariant
                self.wf(),
                i <= self.size,
                rows@.len() == self.size,
                cols@.len() == self.size,
                forall|k: int| 0 <= k < rows@.len() ==> (#[trigger] rows@[k])@ == self.cells()[k],
                forall|k: int| 0 <= k < cols@.len() ==> (#[trigger] cols@[k])@ == column_of(self.cells(), k),
                forall|k: int|
                    0 <= k < i ==> line_valid(#[trigger] self.cells()[k], rules_view(self.row_rules@)[k])
                        && line_valid(column_of(self.cells(), k), rules_view(self.col_rules@)[k]),
            decreases self.size - i,
        {
            assert(clues_positive(self.row_rules@[i as int]@));
            assert(clues_positive(self.col_rules@[i as int]@));
            if !check(rows[i].as_slice(), self.row_rules[i].as_slice()) {
                return false;
            }
            if !check(cols[i].as_slice(), self.col_rules[i].as_slice()) {
                return false;
            }
            i = i + 1;
        }
        proof {
            let rv = rules_view(self.row_rules@);
            assert(rv.len() == self.size);
            assert forall|k: int| 0 <= k < rv.len() implies line_valid(#[trigger] self.cells()[k], rv[k])
                && line_valid(column_of(self.cells(), k), rules_view(self.col_rules@)[k]) by {}
            assert(solved(self.cells(), rv, rules_view(self.col_rules@)));
        }
        true
    }
}

} // verus!
