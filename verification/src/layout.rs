//! The cells of the grid in which a truth table is shown.
//!
//! The grid has one column for each variable and a last one for the value of
//! the formula. Its first row holds the headings; each row below it holds one
//! row of the table, `1` for true and `0` for false.

use vstd::prelude::*;
use vstd::arithmetic::power2::{lemma2_to64, lemma_pow2_strictly_increases};
use crate::table::{row_views, TruthTable};
use crate::text::string_from_chars;
use crate::variables::lemma_at_most_one_per_letter;

verus! {

/// One cell of the grid: its text and where it stands.
#[derive(Debug, PartialEq, Eq)]
pub struct Cell {
    /// What the cell shows.
    pub text: String,
    /// The column, counted from 0 at the left.
    pub column: i32,
    /// The row, counted from 0 at the top.
    pub row: i32,
}

impl View for Cell {
    type V = (Seq<char>, int, int);

    open spec fn view(&self) -> (Seq<char>, int, int) {
        (self.text@, self.column as int, self.row as int)
    }
}

/// The text that shows a truth value.
pub open spec fn bit_text(b: bool) -> Seq<char> {
    if b {
        "1"@
    } else {
        "0"@
    }
}

/// The text of the cell in row `row` and column `column` of the grid.
pub open spec fn cell_text(
    variables: Seq<char>,
    rows: Seq<(Seq<bool>, bool)>,
    row: int,
    column: int,
) -> Seq<char> {
    if row == 0 {
        if column < variables.len() {
            seq![variables[column]]
        } else {
            "Output"@
        }
    } else {
        if column < variables.len() {
            bit_text(rows[row - 1].0[column])
        } else {
            bit_text(rows[row - 1].1)
        }
    }
}

/// The cells of the grid, row after row and each row from the left.
pub open spec fn grid_of(variables: Seq<char>, rows: Seq<(Seq<bool>, bool)>) -> Seq<
    (Seq<char>, int, int),
> {
    let width = variables.len() + 1;
    Seq::new(
        (rows.len() + 1) * width,
        |k: int| (cell_text(variables, rows, k / (width as int), k % (width as int)), k % (
        width as int), k / (width as int)),
    )
}

/// The cells of `cells`, each as a triple of plain values.
pub open spec fn cell_views(cells: Seq<Cell>) -> Seq<(Seq<char>, int, int)> {
    Seq::new(cells.len(), |k: int| cells[k]@)
}

/// Gives the text that shows a truth value: `1` or `0`.
pub fn render_bit(b: bool) -> (text: &'static str)
    ensures
        text@ == bit_text(b),
{
    if b {
        "1"
    } else {
        "0"
    }
}

/// Lists the cells of the grid that shows `table`.
pub fn grid_cells(table: &TruthTable) -> (cells: Vec<Cell>)
    requires
        table.wf(),
    ensures
        cell_views(cells@) == grid_of(table.variables@, row_views(table.rows@)),
{
    let n = table.variables.len();
    let count = table.rows.len();
    let ghost variables = table.variables@;
    let ghost rows = row_views(table.rows@);
    let ghost width = (n + 1) as int;
    proof {
        lemma_at_most_one_per_letter(table.variables@);
        lemma2_to64();
        if n < 26 {
            lemma_pow2_strictly_increases(n as nat, 26);
        }
    }
    let mut cells: Vec<Cell> = Vec::new();
    let mut row: usize = 0;
    while row <= count
        invariant
            table.wf(),
            n == table.variables@.len(),
            count == table.rows@.len(),
            variables == table.variables@,
            rows == row_views(table.rows@),
            width == n + 1,
            n <= 26,
            count <= 0x4000000,
            row <= count + 1,
            cells@.len() == row * width,
            forall|k: int|
                0 <= k < cells@.len() ==> (#[trigger] cells@[k])@ == grid_of(variables, rows)[k],
        decreases count + 1 - row,
    {
        let mut column: usize = 0;
        while column <= n
            invariant
                table.wf(),
                n == table.variables@.len(),
                count == table.rows@.len(),
                variables == table.variables@,
                rows == row_views(table.rows@),
                width == n + 1,
                n <= 26,
                count <= 0x4000000,
                row <= count,
                column <= n + 1,
                cells@.len() == row * width + column,
                forall|k: int|
                    0 <= k < cells@.len() ==> (#[trigger] cells@[k])@ == grid_of(
                        variables,
                        rows,
                    )[k],
            decreases n + 1 - column,
        {
            let text = if row == 0 {
                if column < n {
                    let mut letter: Vec<char> = Vec::new();
                    letter.push(table.variables[column]);
                    proof {
                        assert(letter@ == seq![variables[column as int]]);
                    }
                    string_from_chars(&letter)
                } else {
                    String::from_str("Output")
                }
            } else {
                let shown = &table.rows[row - 1];
                if column < n {
                    String::from_str(render_bit(shown.assignment[column]))
                } else {
                    String::from_str(render_bit(shown.result))
                }
            };
            proof {
                lemma_cell_index(row as int, column as int, width);
                lemma_grid_size(row as int, count as int, width);
                if row > 0 {
                    assert(rows[row - 1] == table.rows@[row - 1]@);
                }
                assert(text@ == cell_text(variables, rows, row as int, column as int));
            }
            cells.push(Cell { text, column: column as i32, row: row as i32 });
            column += 1;
        }
        proof {
            assert(row * width + width == (row + 1) * width) by (nonlinear_arith);
        }
        row += 1;
    }
    cells
}

/// Cell `column` of row `row` stands at index `row * width + column`.
proof fn lemma_cell_index(row: int, column: int, width: int)
    by (nonlinear_arith)
    requires
        0 <= row,
        0 <= column < width,
    ensures
        (row * width + column) / width == row,
        (row * width + column) % width == column,
{
}

/// The cells of a row that the grid has are cells of the grid.
proof fn lemma_grid_size(row: int, count: int, width: int)
    by (nonlinear_arith)
    requires
        0 <= row <= count,
        0 < width,
    ensures
        row * width + width <= (count + 1) * width,
{
}

} // verus!
