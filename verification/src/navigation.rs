//! Queries on the tables of a parsed document: moving from cell to cell,
//! and reading a cell.
//!
//! Rows are counted as a reader sees them: in a table with a header, row 0
//! is the header and row 1 is the first row after the separator.

use vstd::prelude::*;
use crate::block::{Block, BlockView};
use crate::document::Document;
use crate::table::{row_view, Table, TableView};
use crate::text::{chars_of, string_of};

verus! {

/// A cell position, and whether the move that led to it was possible.
#[derive(Debug, Clone, Copy, PartialEq, Eq, Structural)]
pub struct CellPosition {
    pub row: i32,
    pub col: i32,
    pub valid: bool,
}

/// Why a query on a document could not be answered.
#[derive(Debug, Clone, Copy, PartialEq, Eq, Structural)]
pub enum QueryError {
    /// The document has no block at the index.
    BlockIndexOutOfRange,
    /// The block at the index is no table.
    NotATable,
    /// The table has no cell at the position.
    CellOutOfRange,
}

/// The greatest row that a move may lead to. The header and the separator
/// do not count.
pub open spec fn max_row(t: TableView) -> int {
    if t.has_header {
        t.rows.len() - 2
    } else {
        t.rows.len() - 1
    }
}

/// The greatest column that a move may lead to: the last column of the
/// first row, or 0 in a table without rows.
pub open spec fn max_col(t: TableView) -> int {
    if t.rows.len() > 0 {
        t.rows[0].len() - 1
    } else {
        0
    }
}

/// The position one step from `(row, col)`: up for direction 0, down for
/// 1, left for 2, right for 3. Any other direction leads nowhere.
pub open spec fn step(row: int, col: int, direction: int) -> (int, int) {
    if direction == 0 {
        (row - 1, col)
    } else if direction == 1 {
        (row + 1, col)
    } else if direction == 2 {
        (row, col - 1)
    } else if direction == 3 {
        (row, col + 1)
    } else {
        (row, col)
    }
}

/// Whether a move may lead to `(row, col)` in `t`.
pub open spec fn in_bounds(t: TableView, row: int, col: int) -> bool {
    0 <= row <= max_row(t) && 0 <= col <= max_col(t) && row <= i32::MAX && col <= i32::MAX
}

/// Where a step in `direction` from `(row, col)` leads in `t`: to the next
/// position where that is in bounds, and nowhere where it is not.
pub open spec fn next_position(t: TableView, row: i32, col: i32, direction: i32) -> CellPosition {
    let (r, c) = step(row as int, col as int, direction as int);
    if in_bounds(t, r, c) {
        CellPosition { row: r as i32, col: c as i32, valid: true }
    } else {
        CellPosition { row, col, valid: false }
    }
}

/// The index among the rows of `t` of the row that a reader counts as
/// `row`: after the header, the separator is passed over.
pub open spec fn stored_row(t: TableView, row: int) -> int {
    if t.has_header && row != 0 {
        row + 1
    } else {
        row
    }
}

/// The text of the cell at `(row, col)` of `t`, if there is one.
pub open spec fn cell_of(t: TableView, row: int, col: int) -> Option<Seq<char>> {
    let r = stored_row(t, row);
    if 0 <= row && 0 <= r < t.rows.len() && 0 <= col < t.rows[r].len() {
        Some(t.rows[r][col])
    } else {
        None
    }
}

/// The table at `block_index` of `blocks`, or why there is none.
pub open spec fn table_of_block(blocks: Seq<BlockView>, block_index: int) -> Result<
    TableView,
    QueryError,
> {
    if !(0 <= block_index < blocks.len()) {
        Err(QueryError::BlockIndexOutOfRange)
    } else {
        match blocks[block_index] {
            BlockView::Table(t) => Ok(t),
            _ => Err(QueryError::NotATable),
        }
    }
}

/// What a query for the cell at `(row, col)` of the table at `block_index`
/// of `blocks` gives.
pub open spec fn cell_query(blocks: Seq<BlockView>, block_index: int, row: int, col: int) -> Result<
    Seq<char>,
    QueryError,
> {
    match table_of_block(blocks, block_index) {
        Ok(t) => match cell_of(t, row, col) {
            Some(text) => Ok(text),
            None => Err(QueryError::CellOutOfRange),
        },
        Err(e) => Err(e),
    }
}

/// What a query for a step from `(row, col)` in the table at `block_index`
/// of `blocks` gives.
pub open spec fn move_query(
    blocks: Seq<BlockView>,
    block_index: int,
    row: i32,
    col: i32,
    direction: i32,
) -> Result<CellPosition, QueryError> {
    match table_of_block(blocks, block_index) {
        Ok(t) => Ok(next_position(t, row, col, direction)),
        Err(e) => Err(e),
    }
}

/// The text that describes the error `e`.
pub open spec fn query_error_text(e: QueryError) -> Seq<char> {
    match e {
        QueryError::BlockIndexOutOfRange => "Block index out of range"@,
        QueryError::NotATable => "Block is not a table"@,
        QueryError::CellOutOfRange => "Cell position out of range"@,
    }
}

impl QueryError {
    /// A description of this error.
    pub fn to_string(&self) -> (r: String)
        ensures
            r@ == query_error_text(*self),
    {
        let text = match self {
            QueryError::BlockIndexOutOfRange => chars_of("Block index out of range"),
            QueryError::NotATable => chars_of("Block is not a table"),
            QueryError::CellOutOfRange => chars_of("Cell position out of range"),
        };
        string_of(text.as_slice())
    }
}

/// Where a step in `direction` from `(current_row, current_col)` leads in
/// `table`. A step that would leave the table is not valid, and the
/// position stays as it was.
pub fn calculate_new_position(
    table: &Table,
    current_row: i32,
    current_col: i32,
    direction: i32,
) -> (r: CellPosition)
    ensures
        r == next_position(table@, current_row, current_col, direction),
{
    let mut new_row: i64 = current_row as i64;
    let mut new_col: i64 = current_col as i64;
    if direction == 0 {
        new_row = new_row - 1;
    } else if direction == 1 {
        new_row = new_row + 1;
    } else if direction == 2 {
        new_col = new_col - 1;
    } else if direction == 3 {
        new_col = new_col + 1;
    }
    let excluded: usize = if table.has_header {
        2
    } else {
        1
    };
    let rows = table.rows.len();
    let row_ok = 0 <= new_row && new_row <= 0x7fff_ffff && rows >= excluded && (new_row as usize)
        <= rows - excluded;
    let col_ok = if rows > 0 {
        let width = table.rows[0].len();
        assert(table@.rows[0].len() == width);
        0 <= new_col && new_col <= 0x7fff_ffff && width >= 1 && (new_col as usize) <= width - 1
    } else {
        new_col == 0
    };
    if row_ok && col_ok {
        CellPosition { row: new_row as i32, col: new_col as i32, valid: true }
    } else {
        CellPosition { row: current_row, col: current_col, valid: false }
    }
}

/// The cell at `(row, col)` of `table`, if there is one.
pub fn cell_at(table: &Table, row: i32, col: i32) -> (r: Option<&String>)
    ensures
        match r {
            Some(cell) => cell_of(table@, row as int, col as int) == Some(cell@),
            None => cell_of(table@, row as int, col as int) is None,
        },
{
    if row < 0 || col < 0 {
        return None;
    }
    let shift: usize = if table.has_header && row != 0 {
        1
    } else {
        0
    };
    let r: usize = row as usize + shift;
    if r >= table.rows.len() {
        return None;
    }
    assert(table@.rows[r as int] == row_view(table.rows@[r as int]@));
    let c: usize = col as usize;
    if c >= table.rows[r].len() {
        return None;
    }
    Some(&table.rows[r][c])
}

/// The table at `block_index` of `doc`, or why there is none.
pub fn table_at(doc: &Document, block_index: i32) -> (r: Result<&Table, QueryError>)
    ensures
        match r {
            Ok(table) => table_of_block(doc@, block_index as int) == Ok::<TableView, QueryError>(
                table@,
            ),
            Err(e) => table_of_block(doc@, block_index as int) == Err::<TableView, QueryError>(e),
        },
{
    if block_index < 0 || block_index as usize >= doc.blocks.len() {
        return Err(QueryError::BlockIndexOutOfRange);
    }
    assert(doc@[block_index as int] == doc.blocks@[block_index as int]@);
    match &doc.blocks[block_index as usize] {
        Block::Table(table) => Ok(table),
        _ => Err(QueryError::NotATable),
    }
}

/// Where a step in `direction` from `(row, col)` leads in the table at
/// `block_index` of `doc`.
pub fn navigate(doc: &Document, block_index: i32, row: i32, col: i32, direction: i32) -> (r: Result<
    CellPosition,
    QueryError,
>)
    ensures
        r == move_query(doc@, block_index as int, row, col, direction),
{
    match table_at(doc, block_index) {
        Ok(table) => Ok(calculate_new_position(table, row, col, direction)),
        Err(e) => Err(e),
    }
}

/// The text of the cell at `(row, col)` of the table at `block_index` of
/// `doc`.
pub fn get_cell(doc: &Document, block_index: i32, row: i32, col: i32) -> (r: Result<
    String,
    QueryError,
>)
    ensures
        match r {
            Ok(text) => cell_query(doc@, block_index as int, row as int, col as int) == Ok::<
                Seq<char>,
                QueryError,
            >(text@),
            Err(e) => cell_query(doc@, block_index as int, row as int, col as int) == Err::<
                Seq<char>,
                QueryError,
            >(e),
        },
{
    match table_at(doc, block_index) {
        Ok(table) => match cell_at(table, row, col) {
            Some(cell) => Ok(cell.clone()),
            None => Err(QueryError::CellOutOfRange),
        },
        Err(e) => Err(e),
    }
}

} // verus!
