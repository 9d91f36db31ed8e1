use cssbox::style::DisplayInner;
use cssbox::table::{collect_table_structure, TableChild, TableKid};

fn kid(node: usize, inner: DisplayInner, hidden: bool, cells: Vec<(usize, bool)>) -> TableKid {
    TableKid { node, inner, hidden, cells }
}

fn child(node: usize, inner: DisplayInner, has_width: bool, kids: Vec<TableKid>) -> TableChild {
    TableChild { node, inner, has_width, kids }
}

#[test]
fn rows_groups_cells_captions_and_columns() {
    let children = vec![
        child(1, DisplayInner::TableCaption, false, vec![]),
        child(2, DisplayInner::TableColumn, true, vec![]),
        child(3, DisplayInner::TableColumn, false, vec![]),
        child(
            4,
            DisplayInner::TableRow,
            false,
            vec![
                kid(5, DisplayInner::TableCell, false, vec![]),
                kid(6, DisplayInner::TableCell, true, vec![]),
                kid(7, DisplayInner::TableCell, false, vec![]),
            ],
        ),
        child(
            8,
            DisplayInner::TableRowGroup,
            false,
            vec![
                kid(9, DisplayInner::TableRow, false, vec![(10, false), (11, false), (12, false)]),
                kid(13, DisplayInner::TableCell, false, vec![(14, false)]),
            ],
        ),
        child(15, DisplayInner::TableCell, false, vec![]),
        child(16, DisplayInner::Flow, false, vec![]),
    ];
    let shape = collect_table_structure(&children);
    assert_eq!(shape.captions, vec![1]);
    assert_eq!(shape.columns, vec![2]);
    assert_eq!(shape.rows.len(), 3);
    assert_eq!(shape.rows[0].node, Some(4));
    let first: Vec<(usize, usize)> = shape.rows[0].cells.iter().map(|c| (c.node, c.col_start)).collect();
    assert_eq!(first, vec![(5, 0), (7, 1)]);
    assert_eq!(shape.rows[1].node, Some(9));
    assert_eq!(shape.rows[1].cells.len(), 3);
    assert_eq!(shape.rows[2].node, None);
    assert_eq!(shape.rows[2].cells[0].node, 15);
    assert_eq!(shape.num_columns(), 3);
}

#[test]
fn width_columns_count_when_rows_are_narrow() {
    let children = vec![
        child(1, DisplayInner::TableColumnGroup, true, vec![]),
        child(2, DisplayInner::TableColumn, true, vec![]),
        child(3, DisplayInner::TableCell, false, vec![]),
    ];
    let shape = collect_table_structure(&children);
    assert_eq!(shape.num_columns(), 2);
}
