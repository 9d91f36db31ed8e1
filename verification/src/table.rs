//! The structure of a table: its rows and their cells (each visible cell
//! of a row in the next column), its captions and the columns that give
//! widths, read from the displays of the table's children.

use vstd::prelude::*;
use crate::style::DisplayInner;

verus! {

/// A child of a table's child: a cell of a row, or a row of a row group
/// with the nodes of its own children and whether each is hidden.
#[derive(Debug, Clone)]
pub struct TableKid {
    pub node: usize,
    pub inner: DisplayInner,
    pub hidden: bool,
    pub cells: Vec<(usize, bool)>,
}

/// A child of a table, with its own children; `has_width` tells whether a
/// column gives a width.
#[derive(Debug, Clone)]
pub struct TableChild {
    pub node: usize,
    pub inner: DisplayInner,
    pub has_width: bool,
    pub kids: Vec<TableKid>,
}

/// A cell: its node and the columns it spans.
#[derive(Debug, Clone, Copy, PartialEq, Eq, Structural)]
pub struct TableCellSlot {
    pub node: usize,
    pub col_start: usize,
    pub col_span: usize,
}

/// A row: its node (none for the implicit row of a lone cell) and cells.
#[derive(Debug, Clone)]
pub struct TableRowShape {
    pub node: Option<usize>,
    pub cells: Vec<TableCellSlot>,
}

/// The structure of a table.
#[derive(Debug, Clone)]
pub struct TableShape {
    pub rows: Vec<TableRowShape>,
    pub captions: Vec<usize>,
    pub columns: Vec<usize>,
}

pub type KidView = (int, DisplayInner, bool, Seq<(int, bool)>);

pub type ChildView = (int, DisplayInner, bool, Seq<KidView>);

pub type CellView = (int, int, int);

pub type RowView = (Option<int>, Seq<CellView>);

pub open spec fn pairs_view(v: Seq<(usize, bool)>) -> Seq<(int, bool)> {
    v.map_values(|p: (usize, bool)| (p.0 as int, p.1))
}

impl TableKid {
    pub open spec fn view(&self) -> KidView {
        (self.node as int, self.inner, self.hidden, pairs_view(self.cells@))
    }
}

impl TableChild {
    pub open spec fn view(&self) -> ChildView {
        (self.node as int, self.inner, self.has_width, self.kids@.map_values(|k: TableKid| k@))
    }
}

impl TableCellSlot {
    pub open spec fn view(&self) -> CellView {
        (self.node as int, self.col_start as int, self.col_span as int)
    }
}

impl TableRowShape {
    pub open spec fn view(&self) -> RowView {
        (
            match self.node {
                Some(n) => Some(n as int),
                None => None,
            },
            self.cells@.map_values(|c: TableCellSlot| c@),
        )
    }
}

/// The cells of a row: each visible child in the next column, spanning one.
pub open spec fn row_cells(ks: Seq<(int, bool)>) -> Seq<CellView>
    decreases ks.len(),
{
    if ks.len() == 0 {
        Seq::empty()
    } else {
        let p = row_cells(ks.drop_last());
        if !ks.last().1 {
            p.push((ks.last().0, p.len() as int, 1))
        } else {
            p
        }
    }
}

/// The rows of a row group: its children that are rows.
pub open spec fn group_rows(kids: Seq<KidView>) -> Seq<RowView>
    decreases kids.len(),
{
    if kids.len() == 0 {
        Seq::empty()
    } else {
        group_rows(kids.drop_last()) + if kids.last().1 == DisplayInner::TableRow {
            seq![(Some(kids.last().0), row_cells(kids.last().3))]
        } else {
            Seq::empty()
        }
    }
}

/// A row group's display.
pub open spec fn is_row_group(inner: DisplayInner) -> bool {
    inner == DisplayInner::TableRowGroup || inner == DisplayInner::TableHeaderGroup || inner
        == DisplayInner::TableFooterGroup
}

/// The rows a child of a table makes: a row is one; a row group gives its
/// rows; a lone cell makes an implicit row of itself; others make none.
pub open spec fn child_rows(c: ChildView) -> Seq<RowView> {
    if c.1 == DisplayInner::TableRow {
        seq![(Some(c.0), row_cells(c.3.map_values(|k: KidView| (k.0, k.2))))]
    } else if is_row_group(c.1) {
        group_rows(c.3)
    } else if c.1 == DisplayInner::TableCell {
        seq![(None, seq![(c.0, 0int, 1int)])]
    } else {
        Seq::empty()
    }
}

/// The structure of a table with these children, in order: (rows,
/// captions, columns that give widths).
pub open spec fn table_shape(cs: Seq<ChildView>) -> (Seq<RowView>, Seq<int>, Seq<int>)
    decreases cs.len(),
{
    if cs.len() == 0 {
        (Seq::empty(), Seq::empty(), Seq::empty())
    } else {
        let p = table_shape(cs.drop_last());
        let c = cs.last();
        (
            p.0 + child_rows(c),
            if c.1 == DisplayInner::TableCaption {
                p.1.push(c.0)
            } else {
                p.1
            },
            if (c.1 == DisplayInner::TableColumn || c.1 == DisplayInner::TableColumnGroup) && c.2 {
                p.2.push(c.0)
            } else {
                p.2
            },
        )
    }
}

/// `r` is the row that one of the row children among `kids` makes: its
/// node, and its visible cells one per column.
pub open spec fn row_of_kid(kids: Seq<KidView>, r: RowView) -> bool {
    exists|j: int| 0 <= j < kids.len() && (#[trigger] kids[j]).1 == DisplayInner::TableRow && r == (Some(kids[j].0), row_cells(kids[j].3))
}

proof fn lemma_group_rows(kids: Seq<KidView>)
    ensures
        forall|j: int| 0 <= j < kids.len() && (#[trigger] kids[j]).1 == DisplayInner::TableRow ==> group_rows(kids).contains(
            (Some(kids[j].0), row_cells(kids[j].3)),
        ),
        forall|m: int| 0 <= m < group_rows(kids).len() ==> row_of_kid(kids, #[trigger] group_rows(kids)[m]),
    decreases kids.len(),
{
    if kids.len() > 0 {
        let d = kids.drop_last();
        lemma_group_rows(d);
        let g = group_rows(kids);
        let gd = group_rows(d);
        let last = kids.len() - 1;
        assert forall|j: int| 0 <= j < kids.len() && (#[trigger] kids[j]).1 == DisplayInner::TableRow implies g.contains(
            (Some(kids[j].0), row_cells(kids[j].3)),
        ) by {
            if j < last {
                assert(kids[j] == d[j]);
                let m = choose|m: int| 0 <= m < gd.len() && gd[m] == (Some(d[j].0), row_cells(d[j].3));
                assert(g[m] == gd[m]);
            } else {
                assert(g[gd.len() as int] == (Some(kids[j].0), row_cells(kids[j].3)));
            }
        }
        assert forall|m: int| 0 <= m < g.len() implies row_of_kid(kids, #[trigger] g[m]) by {
            if m < gd.len() {
                assert(g[m] == gd[m]);
                let j = choose|j: int| 0 <= j < d.len() && (#[trigger] d[j]).1 == DisplayInner::TableRow && gd[m] == (
                    Some(d[j].0),
                    row_cells(d[j].3),
                );
                assert(kids[j] == d[j]);
            } else {
                assert(kids[last].1 == DisplayInner::TableRow);
                assert(g[m] == (Some(kids[last].0), row_cells(kids[last].3)));
            }
        }
    }
}

/// A row group, a header group and a footer group each add their rows to
/// the table, after the rows before them: every row child of the group
/// becomes a row of the table, with its own node and cells, and every row
/// the group adds is one of its row children.
pub proof fn law_table_row_groups_give_rows(cs: Seq<ChildView>, c: ChildView)
    requires
        c.1 == DisplayInner::TableRowGroup || c.1 == DisplayInner::TableHeaderGroup || c.1
            == DisplayInner::TableFooterGroup,
    ensures
        table_shape(cs.push(c)).0.subrange(0, table_shape(cs).0.len() as int) == table_shape(cs).0,
        forall|j: int| 0 <= j < c.3.len() && (#[trigger] c.3[j]).1 == DisplayInner::TableRow ==> table_shape(cs.push(c)).0.subrange(
            table_shape(cs).0.len() as int,
            table_shape(cs.push(c)).0.len() as int,
        ).contains((Some(c.3[j].0), row_cells(c.3[j].3))),
        forall|m: int| table_shape(cs).0.len() <= m < table_shape(cs.push(c)).0.len() ==> row_of_kid(c.3, #[trigger] table_shape(cs.push(c)).0[m]),
{
    let all = cs.push(c);
    assert(all.drop_last() =~= cs);
    assert(all.last() == c);
    let before = table_shape(cs).0;
    let after = table_shape(all).0;
    assert(after == before + group_rows(c.3));
    lemma_group_rows(c.3);
    assert(after.subrange(0, before.len() as int) =~= before);
    assert(after.subrange(before.len() as int, after.len() as int) =~= group_rows(c.3));
    assert forall|m: int| before.len() <= m < after.len() implies row_of_kid(c.3, #[trigger] after[m]) by {
        assert(after[m] == group_rows(c.3)[m - before.len()]);
    }
}

/// The cells of a row from its children.
fn collect_row(node: Option<usize>, kids: &Vec<(usize, bool)>) -> (r: TableRowShape)
    ensures
        r@.0 == (match node {
            Some(n) => Some(n as int),
            None => None,
        }),
        r@.1 == row_cells(pairs_view(kids@)),
        forall|i: int| 0 <= i < r.cells@.len() ==> (#[trigger] r.cells@[i]).col_start == i && r.cells@[i].col_span == 1,
{
    let ghost kv = pairs_view(kids@);
    let mut cells: Vec<TableCellSlot> = Vec::new();
    let mut col: usize = 0;
    let mut i: usize = 0;
    assert(kv.take(0) =~= Seq::<(int, bool)>::empty());
    assert(cells@.map_values(|c: TableCellSlot| c@) =~= Seq::<CellView>::empty());
    while i < kids.len()
        invariant
            kv == pairs_view(kids@),
            i <= kids.len(),
            col == cells@.len(),
            col <= i,
            cells@.map_values(|c: TableCellSlot| c@) == row_cells(kv.take(i as int)),
            forall|t: int| 0 <= t < cells@.len() ==> (#[trigger] cells@[t]).col_start == t && cells@[t].col_span == 1,
        decreases kids.len() - i,
    {
        let (n, hidden) = kids[i];
        let ghost before = cells@;
        proof {
            assert(kv.take(i + 1).drop_last() =~= kv.take(i as int));
            assert(kv.take(i + 1).last() == (n as int, hidden));
        }
        if !hidden {
            cells.push(TableCellSlot { node: n, col_start: col, col_span: 1 });
            col += 1;
            assert(cells@.map_values(|c: TableCellSlot| c@) =~= before.map_values(|c: TableCellSlot| c@).push(
                (n as int, before.len() as int, 1int),
            ));
        }
        i += 1;
    }
    assert(kv.take(kids.len() as int) =~= kv);
    TableRowShape { node, cells }
}

/// Read the structure of a table from its children.
pub fn collect_table_structure(children: &Vec<TableChild>) -> (r: TableShape)
    ensures
        r.rows@.map_values(|x: TableRowShape| x@) == table_shape(children@.map_values(|c: TableChild| c@)).0,
        r.captions@.map_values(|n: usize| n as int) == table_shape(children@.map_values(|c: TableChild| c@)).1,
        r.columns@.map_values(|n: usize| n as int) == table_shape(children@.map_values(|c: TableChild| c@)).2,
        forall|i: int, j: int|
            0 <= i < r.rows@.len() && 0 <= j < r.rows@[i].cells@.len() ==> (#[trigger] r.rows@[i].cells@[j]).col_start
                == j && r.rows@[i].cells@[j].col_span == 1,
{
    let ghost cv = children@.map_values(|c: TableChild| c@);
    let mut rows: Vec<TableRowShape> = Vec::new();
    let mut captions: Vec<usize> = Vec::new();
    let mut columns: Vec<usize> = Vec::new();
    let mut i: usize = 0;
    assert(cv.take(0) =~= Seq::<ChildView>::empty());
    assert(rows@.map_values(|x: TableRowShape| x@) =~= Seq::<RowView>::empty());
    assert(captions@.map_values(|n: usize| n as int) =~= Seq::<int>::empty());
    assert(columns@.map_values(|n: usize| n as int) =~= Seq::<int>::empty());
    while i < children.len()
        invariant
            cv == children@.map_values(|c: TableChild| c@),
            i <= children.len(),
            rows@.map_values(|x: TableRowShape| x@) == table_shape(cv.take(i as int)).0,
            captions@.map_values(|n: usize| n as int) == table_shape(cv.take(i as int)).1,
            columns@.map_values(|n: usize| n as int) == table_shape(cv.take(i as int)).2,
            forall|a: int, b: int|
                0 <= a < rows@.len() && 0 <= b < rows@[a].cells@.len() ==> (#[trigger] rows@[a].cells@[b]).col_start
                    == b && rows@[a].cells@[b].col_span == 1,
        decreases children.len() - i,
    {
        let c = &children[i];
        let ghost before_rows = rows@.map_values(|x: TableRowShape| x@);
        let ghost before_caps = captions@.map_values(|n: usize| n as int);
        let ghost before_cols = columns@.map_values(|n: usize| n as int);
        let ghost start_rows = rows@;
        proof {
            assert(cv.take(i + 1).drop_last() =~= cv.take(i as int));
            assert(cv.take(i + 1).last() == c@);
        }
        match c.inner {
            DisplayInner::TableCaption => {
                captions.push(c.node);
                assert(captions@.map_values(|n: usize| n as int) =~= before_caps.push(c.node as int));
            },
            DisplayInner::TableRow => {
                let mut cells: Vec<(usize, bool)> = Vec::new();
                let mut k: usize = 0;
                while k < c.kids.len()
                    invariant
                        k <= c.kids.len(),
                        pairs_view(cells@) == c@.3.map_values(|kv: KidView| (kv.0, kv.2)).take(k as int),
                    decreases c.kids.len() - k,
                {
                    let ghost b = cells@;
                    cells.push((c.kids[k].node, c.kids[k].hidden));
                    assert(pairs_view(cells@) =~= pairs_view(b).push((c.kids@[k as int].node as int, c.kids@[k as int].hidden)));
                    assert(c@.3[k as int] == c.kids@[k as int]@);
                    assert(c@.3.map_values(|kv: KidView| (kv.0, kv.2)).take(k + 1) =~= c@.3.map_values(
                        |kv: KidView| (kv.0, kv.2),
                    ).take(k as int).push((c.kids@[k as int].node as int, c.kids@[k as int].hidden)));
                    k += 1;
                }
                assert(c@.3.map_values(|kv: KidView| (kv.0, kv.2)).take(c.kids.len() as int) =~= c@.3.map_values(
                    |kv: KidView| (kv.0, kv.2),
                ));
                let row = collect_row(Some(c.node), &cells);
                rows.push(row);
                assert(rows@.map_values(|x: TableRowShape| x@) =~= before_rows + child_rows(c@));
                assert forall|a: int, b: int|
                    0 <= a < rows@.len() && 0 <= b < rows@[a].cells@.len() implies (#[trigger] rows@[a].cells@[
                        b
                    ]).col_start == b && rows@[a].cells@[b].col_span == 1 by {
                    if a < start_rows.len() {
                        assert(rows@[a] == start_rows[a]);
                    }
                }
            },
            DisplayInner::TableRowGroup | DisplayInner::TableHeaderGroup | DisplayInner::TableFooterGroup => {
                let ghost kvs = c@.3;
                let mut g: usize = 0;
                assert(kvs.take(0) =~= Seq::<KidView>::empty());
                assert(rows@.map_values(|x: TableRowShape| x@) =~= before_rows + group_rows(kvs.take(0)));
                while g < c.kids.len()
                    invariant
                        kvs == c@.3,
                        kvs.len() == c.kids@.len(),
                        g <= c.kids.len(),
                        rows@.map_values(|x: TableRowShape| x@) == before_rows + group_rows(kvs.take(g as int)),
                        forall|a: int, b: int|
                            0 <= a < rows@.len() && 0 <= b < rows@[a].cells@.len() ==> (#[trigger] rows@[a].cells@[
                                b
                            ]).col_start == b && rows@[a].cells@[b].col_span == 1,
                    decreases c.kids.len() - g,
                {
                    let kid = &c.kids[g];
                    let ghost b2 = rows@.map_values(|x: TableRowShape| x@);
                    let ghost rb = rows@;
                    proof {
                        assert(kvs.take(g + 1).drop_last() =~= kvs.take(g as int));
                        assert(kvs.take(g + 1).last() == kid@);
                    }
                    if kid.inner == DisplayInner::TableRow {
                        let row = collect_row(Some(kid.node), &kid.cells);
                        rows.push(row);
                        assert(rows@.map_values(|x: TableRowShape| x@) =~= b2.push(
                            (Some(kid.node as int), row_cells(pairs_view(kid.cells@))),
                        ));
                        assert forall|a: int, b: int|
                            0 <= a < rows@.len() && 0 <= b < rows@[a].cells@.len() implies (#[trigger] rows@[a].cells@[
                                b
                            ]).col_start == b && rows@[a].cells@[b].col_span == 1 by {
                            if a < rb.len() {
                                assert(rows@[a] == rb[a]);
                            }
                        }
                    }
                    proof {
                        assert(before_rows + group_rows(kvs.take(g + 1)) =~= rows@.map_values(|x: TableRowShape| x@));
                    }
                    g += 1;
                }
                assert(kvs.take(c.kids.len() as int) =~= kvs);
            },
            DisplayInner::TableColumn | DisplayInner::TableColumnGroup => {
                if c.has_width {
                    columns.push(c.node);
                    assert(columns@.map_values(|n: usize| n as int) =~= before_cols.push(c.node as int));
                }
            },
            DisplayInner::TableCell => {
                let mut cells: Vec<TableCellSlot> = Vec::new();
                cells.push(TableCellSlot { node: c.node, col_start: 0, col_span: 1 });
                assert(cells@.map_values(|x: TableCellSlot| x@) =~= seq![(c.node as int, 0int, 1int)]);
                rows.push(TableRowShape { node: None, cells });
                assert(rows@.map_values(|x: TableRowShape| x@) =~= before_rows + child_rows(c@));
                assert forall|a: int, b: int|
                    0 <= a < rows@.len() && 0 <= b < rows@[a].cells@.len() implies (#[trigger] rows@[a].cells@[
                        b
                    ]).col_start == b && rows@[a].cells@[b].col_span == 1 by {
                    if a < start_rows.len() {
                        assert(rows@[a] == start_rows[a]);
                    }
                }
            },
            _ => {},
        }
        proof {
            assert(rows@.map_values(|x: TableRowShape| x@) =~= before_rows + child_rows(c@));
        }
        i += 1;
    }
    assert(cv.take(children.len() as int) =~= cv);
    TableShape { rows, captions, columns }
}

/// The number of columns a table needs: past every cell, and at least one
/// per column that gives a width.
pub open spec fn columns_needed(rows: Seq<RowView>, columns: int) -> int
    decreases rows.len(),
{
    if rows.len() == 0 {
        columns
    } else {
        let p = columns_needed(rows.drop_last(), columns);
        let q = cells_end(rows.last().1);
        if q > p {
            q
        } else {
            p
        }
    }
}

/// The column after the last one a row's cells reach.
pub open spec fn cells_end(cells: Seq<CellView>) -> int
    decreases cells.len(),
{
    if cells.len() == 0 {
        0
    } else {
        let p = cells_end(cells.drop_last());
        let e = cells.last().1 + cells.last().2;
        if e > p {
            e
        } else {
            p
        }
    }
}

impl TableShape {
    /// The number of columns: past every cell, and at least the number of
    /// columns that give a width.
    pub fn num_columns(&self) -> (r: usize)
        requires
            forall|i: int, j: int|
                0 <= i < self.rows@.len() && 0 <= j < self.rows@[i].cells@.len() ==> (#[trigger] self.rows@[
                    i
                ].cells@[j]).col_start == j && self.rows@[i].cells@[j].col_span == 1,
        ensures
            r as int == columns_needed(self.rows@.map_values(|x: TableRowShape| x@), self.columns@.len() as int),
    {
        let ghost rv = self.rows@.map_values(|x: TableRowShape| x@);
        let mut m: usize = self.columns.len();
        let mut i: usize = 0;
        assert(rv.take(0) =~= Seq::<RowView>::empty());
        while i < self.rows.len()
            invariant
                rv == self.rows@.map_values(|x: TableRowShape| x@),
                i <= self.rows.len(),
                forall|a: int, b: int|
                    0 <= a < self.rows@.len() && 0 <= b < self.rows@[a].cells@.len() ==> (#[trigger] self.rows@[
                        a
                    ].cells@[b]).col_start == b && self.rows@[a].cells@[b].col_span == 1,
                m as int == columns_needed(rv.take(i as int), self.columns@.len() as int),
            decreases self.rows.len() - i,
        {
            let row = &self.rows[i];
            let ghost cv = row.cells@.map_values(|c: TableCellSlot| c@);
            let mut e: usize = 0;
            let mut j: usize = 0;
            assert(cv.take(0) =~= Seq::<CellView>::empty());
            while j < row.cells.len()
                invariant
                    cv == row.cells@.map_values(|c: TableCellSlot| c@),
                    *row == self.rows@[i as int],
                    i < self.rows@.len(),
                    forall|b: int| 0 <= b < row.cells@.len() ==> (#[trigger] row.cells@[b]).col_start == b && row.cells@[b].col_span == 1,
                    j <= row.cells.len(),
                    e as int == cells_end(cv.take(j as int)),
                decreases row.cells.len() - j,
            {
                let cell = row.cells[j];
                proof {
                    assert(cv.take(j + 1).drop_last() =~= cv.take(j as int));
                    assert(cv.take(j + 1).last() == cell@);
                }
                let end = cell.col_start + cell.col_span;
                if end > e {
                    e = end;
                }
                j += 1;
            }
            proof {
                assert(cv.take(row.cells.len() as int) =~= cv);
                assert(rv.take(i + 1).drop_last() =~= rv.take(i as int));
                assert(rv.take(i + 1).last() == row@);
            }
            if e > m {
                m = e;
            }
            i += 1;
        }
        assert(rv.take(self.rows.len() as int) =~= rv);
        m
    }
}

} // verus!
