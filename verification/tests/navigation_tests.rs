use pinniped_core::block::Block;
use pinniped_core::document::Document;
use pinniped_core::navigation::{
    calculate_new_position, cell_at, get_cell, navigate, table_at, CellPosition, QueryError,
};
use pinniped_core::table::Table;

fn row(cells: &[&str]) -> Vec<String> {
    cells.iter().map(|c| c.to_string()).collect()
}

fn plain() -> Table {
    Table::new(vec![row(&["a", "b"]), row(&["c", "d"]), row(&["e", "f"])])
}

fn headed() -> Table {
    Table::new(vec![row(&["h1", "h2"]), row(&["---", "---"]), row(&["a", "b"]), row(&["c", "d"])])
}

fn at(row: i32, col: i32, valid: bool) -> CellPosition {
    CellPosition { row, col, valid }
}

fn doc() -> Document {
    Document::parse("# T\n\n|h1|h2|\n|---|---|\n|a|b|\n|c|d|").unwrap()
}

#[test]
fn moves_inside_the_table() {
    let t = plain();
    assert_eq!(calculate_new_position(&t, 0, 0, 1), at(1, 0, true));
    assert_eq!(calculate_new_position(&t, 1, 0, 0), at(0, 0, true));
    assert_eq!(calculate_new_position(&t, 1, 0, 3), at(1, 1, true));
    assert_eq!(calculate_new_position(&t, 1, 1, 2), at(1, 0, true));
    assert_eq!(calculate_new_position(&t, 1, 0, 1), at(2, 0, true));
}

#[test]
fn moves_out_of_the_table_leave_the_position() {
    let t = plain();
    assert_eq!(calculate_new_position(&t, 0, 0, 0), at(0, 0, false));
    assert_eq!(calculate_new_position(&t, 2, 0, 1), at(2, 0, false));
    assert_eq!(calculate_new_position(&t, 0, 0, 2), at(0, 0, false));
    assert_eq!(calculate_new_position(&t, 0, 1, 3), at(0, 1, false));
    assert_eq!(calculate_new_position(&t, 7, 7, 0), at(7, 7, false));
}

#[test]
fn header_and_separator_do_not_count() {
    let t = headed();
    assert!(t.has_header);
    assert_eq!(calculate_new_position(&t, 1, 0, 1), at(2, 0, true));
    assert_eq!(calculate_new_position(&t, 2, 0, 1), at(2, 0, false));
}

#[test]
fn unknown_direction_stays() {
    let t = plain();
    assert_eq!(calculate_new_position(&t, 1, 1, 4), at(1, 1, true));
    assert_eq!(calculate_new_position(&t, 1, 1, -1), at(1, 1, true));
    assert_eq!(calculate_new_position(&t, 3, 0, 9), at(3, 0, false));
}

#[test]
fn degenerate_tables_allow_no_move() {
    let empty = Table::new(Vec::new());
    assert_eq!(calculate_new_position(&empty, 0, 0, 4), at(0, 0, false));
    assert_eq!(calculate_new_position(&empty, 1, 0, 0), at(1, 0, false));
    let short = Table::new_with_header(vec![row(&["a"])], true);
    assert_eq!(calculate_new_position(&short, 0, 0, 4), at(0, 0, false));
    let narrow = Table::new(vec![Vec::new(), row(&["a"])]);
    assert_eq!(calculate_new_position(&narrow, 1, 0, 0), at(1, 0, false));
}

#[test]
fn moves_at_the_limits_of_the_integers() {
    let t = plain();
    assert_eq!(calculate_new_position(&t, i32::MAX, 0, 1), at(i32::MAX, 0, false));
    assert_eq!(calculate_new_position(&t, i32::MIN, 0, 0), at(i32::MIN, 0, false));
    assert_eq!(calculate_new_position(&t, 0, i32::MAX, 3), at(0, i32::MAX, false));
    assert_eq!(calculate_new_position(&t, 0, i32::MIN, 2), at(0, i32::MIN, false));
}

#[test]
fn columns_are_bounded_by_the_first_row() {
    let ragged = Table::new(vec![row(&["a"]), row(&["b", "c", "d"])]);
    assert_eq!(calculate_new_position(&ragged, 1, 0, 3), at(1, 0, false));
}

#[test]
fn cells_of_a_plain_table() {
    let t = plain();
    assert_eq!(cell_at(&t, 0, 0), Some(&"a".to_string()));
    assert_eq!(cell_at(&t, 2, 1), Some(&"f".to_string()));
    assert_eq!(cell_at(&t, 3, 0), None);
    assert_eq!(cell_at(&t, 0, 2), None);
    assert_eq!(cell_at(&t, -1, 0), None);
    assert_eq!(cell_at(&t, 0, -1), None);
}

#[test]
fn cells_after_a_header_skip_the_separator() {
    let t = headed();
    assert_eq!(cell_at(&t, 0, 1), Some(&"h2".to_string()));
    assert_eq!(cell_at(&t, 1, 0), Some(&"a".to_string()));
    assert_eq!(cell_at(&t, 2, 1), Some(&"d".to_string()));
    assert_eq!(cell_at(&t, 3, 0), None);
    assert_eq!(cell_at(&t, -1, 0), None);
    assert_eq!(cell_at(&t, i32::MAX, 0), None);
}

#[test]
fn table_lookup_errors() {
    let d = doc();
    assert_eq!(table_at(&d, -1).err(), Some(QueryError::BlockIndexOutOfRange));
    assert_eq!(table_at(&d, 2).err(), Some(QueryError::BlockIndexOutOfRange));
    assert_eq!(table_at(&d, 0).err(), Some(QueryError::NotATable));
    assert_eq!(table_at(&d, 1).ok().map(|t| t.rows.len()), Some(4));
}

#[test]
fn navigate_in_a_document() {
    let d = doc();
    assert_eq!(navigate(&d, 1, 0, 0, 1), Ok(at(1, 0, true)));
    assert_eq!(navigate(&d, 1, 2, 1, 1), Ok(at(2, 1, false)));
    assert_eq!(navigate(&d, 0, 0, 0, 1), Err(QueryError::NotATable));
    assert_eq!(navigate(&d, 5, 0, 0, 1), Err(QueryError::BlockIndexOutOfRange));
}

#[test]
fn get_cell_in_a_document() {
    let d = doc();
    assert_eq!(get_cell(&d, 1, 0, 0), Ok("h1".to_string()));
    assert_eq!(get_cell(&d, 1, 2, 1), Ok("d".to_string()));
    assert_eq!(get_cell(&d, 1, 3, 0), Err(QueryError::CellOutOfRange));
    assert_eq!(get_cell(&d, 1, 0, 2), Err(QueryError::CellOutOfRange));
    assert_eq!(get_cell(&d, 0, 0, 0), Err(QueryError::NotATable));
    assert_eq!(get_cell(&d, -3, 0, 0), Err(QueryError::BlockIndexOutOfRange));
}

#[test]
fn query_errors_describe_themselves() {
    assert_eq!(QueryError::BlockIndexOutOfRange.to_string(), "Block index out of range");
    assert_eq!(QueryError::NotATable.to_string(), "Block is not a table");
    assert_eq!(QueryError::CellOutOfRange.to_string(), "Cell position out of range");
}

#[test]
fn table_block_is_found_by_index() {
    let d = Document::new(vec![Block::Table(plain())]);
    assert_eq!(get_cell(&d, 0, 1, 1), Ok("d".to_string()));
}
