use cssbox::grid::{place_grid_items, GridArea, GridLines};

fn auto() -> GridLines {
    GridLines { row_start: None, row_end: None, col_start: None, col_end: None }
}

fn area(rs: i32, re: i32, cs: i32, ce: i32) -> GridArea {
    GridArea { row_start: rs, row_end: re, col_start: cs, col_end: ce }
}

#[test]
fn auto_items_fill_rows_then_wrap() {
    let (areas, cols, rows) = place_grid_items(&vec![auto(), auto(), auto()], 2, 0, true);
    assert_eq!(areas, vec![area(0, 1, 0, 1), area(0, 1, 1, 2), area(1, 2, 0, 1)]);
    assert_eq!((cols, rows), (2, 2));
}

#[test]
fn auto_items_fill_columns_in_column_flow() {
    let (areas, cols, rows) = place_grid_items(&vec![auto(), auto(), auto()], 0, 2, false);
    assert_eq!(areas, vec![area(0, 1, 0, 1), area(1, 2, 0, 1), area(0, 1, 1, 2)]);
    assert_eq!((cols, rows), (2, 2));
}

#[test]
fn explicit_lines_grow_the_grid() {
    let placed = GridLines { row_start: None, row_end: None, col_start: Some(2), col_end: None };
    let spanning = GridLines { row_start: Some(1), row_end: Some(4), col_start: Some(0), col_end: Some(1) };
    let row_only = GridLines { row_start: Some(5), row_end: None, col_start: None, col_end: None };
    let (areas, cols, rows) = place_grid_items(&vec![placed, spanning, row_only], 1, 1, true);
    assert_eq!(areas, vec![area(0, 1, 2, 3), area(1, 4, 0, 1), area(0, 1, 0, 1)]);
    assert_eq!((cols, rows), (3, 4));
    assert!(areas.iter().all(|a| a.col_end as usize <= cols && a.row_end as usize <= rows));
}
