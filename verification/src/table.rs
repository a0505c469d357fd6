//! Tables: a grid of cell texts whose second row may mark the first as a
//! header.

use vstd::prelude::*;
use crate::text::{chars_of, trim, trimmed};

verus! {

/// A grid of cell texts. Rows may differ in length.
#[derive(Debug, Clone, PartialEq)]
pub struct Table {
    pub rows: Vec<Vec<String>>,
    pub has_header: bool,
}

/// What a [`Table`] stands for.
pub struct TableView {
    pub rows: Seq<Seq<Seq<char>>>,
    pub has_header: bool,
}

/// The cell texts of `row`.
pub open spec fn row_view(row: Seq<String>) -> Seq<Seq<char>> {
    row.map_values(|cell: String| cell@)
}

/// The cell texts of `rows`.
pub open spec fn rows_view(rows: Seq<Vec<String>>) -> Seq<Seq<Seq<char>>> {
    rows.map_values(|row: Vec<String>| row_view(row@))
}

impl View for Table {
    type V = TableView;

    open spec fn view(&self) -> TableView {
        TableView { rows: rows_view(self.rows@), has_header: self.has_header }
    }
}

/// Whether `c` may stand in a separator cell.
pub open spec fn is_rule_char(c: char) -> bool {
    c == '-' || c == ':'
}

/// Whether `cell`, without the whitespace around it, is made of `-` and `:`
/// alone and holds at least one `-`.
pub open spec fn is_separator_cell(cell: Seq<char>) -> bool {
    let t = trimmed(cell);
    (forall|i: int| 0 <= i < t.len() ==> is_rule_char(#[trigger] t[i])) && (exists|i: int|
        0 <= i < t.len() && #[trigger] t[i] == '-')
}

/// Whether every cell of `row` is a separator cell.
pub open spec fn is_separator(row: Seq<Seq<char>>) -> bool {
    forall|i: int| 0 <= i < row.len() ==> is_separator_cell(#[trigger] row[i])
}

/// Whether `rows` begin with a header: there are at least two rows, and the
/// second is a separator row.
pub open spec fn detects_header(rows: Seq<Seq<Seq<char>>>) -> bool {
    rows.len() >= 2 && is_separator(rows[1])
}

/// The table of `rows`, with its header detected.
pub open spec fn table_of(rows: Seq<Seq<Seq<char>>>) -> TableView {
    TableView { rows, has_header: detects_header(rows) }
}

/// Whether `cell` is a separator cell.
pub fn is_separator_text(cell: &[char]) -> (r: bool)
    ensures
        r == is_separator_cell(cell@),
{
    let t = trim(cell);
    let mut dash = false;
    let mut i: usize = 0;
    while i < t.len()
        invariant
            i <= t.len(),
            t@ == trimmed(cell@),
            forall|j: int| 0 <= j < i ==> is_rule_char(#[trigger] t@[j]),
            dash <==> exists|j: int| 0 <= j < i && #[trigger] t@[j] == '-',
        decreases t.len() - i,
    {
        if t[i] == '-' {
            dash = true;
        } else if t[i] != ':' {
            assert(!is_rule_char(t@[i as int]));
            return false;
        }
        i += 1;
    }
    dash
}

/// Whether every cell of `row` is a separator cell.
pub fn is_separator_row(row: &Vec<String>) -> (r: bool)
    ensures
        r == is_separator(row_view(row@)),
{
    let mut i: usize = 0;
    while i < row.len()
        invariant
            i <= row.len(),
            forall|j: int| 0 <= j < i ==> is_separator_cell(#[trigger] row_view(row@)[j]),
        decreases row.len() - i,
    {
        let cell = chars_of(row[i].as_str());
        if !is_separator_text(cell.as_slice()) {
            assert(!is_separator_cell(row_view(row@)[i as int]));
            return false;
        }
        i += 1;
    }
    true
}

impl Table {
    /// The table of `rows`. It has a header if and only if there are at
    /// least two rows and the second is a separator row.
    pub fn new(rows: Vec<Vec<String>>) -> (r: Self)
        ensures
            r.rows == rows,
            r.has_header == detects_header(rows_view(rows@)),
            r@ == table_of(rows_view(rows@)),
    {
        let has_header = rows.len() >= 2 && is_separator_row(&rows[1]);
        Self { rows, has_header }
    }

    /// The table of `rows`, with or without a header as `has_header` says.
    pub fn new_with_header(rows: Vec<Vec<String>>, has_header: bool) -> (r: Self)
        ensures
            r.rows == rows,
            r.has_header == has_header,
    {
        Self { rows, has_header }
    }
}

} // verus!
