//! Placing grid items: items with a column line go where their lines say,
//! the others fill the grid cell by cell in the auto-flow direction, and
//! the grid grows to hold them all.

use vstd::prelude::*;

verus! {

/// The 0-based lines an item's style gives it, where a line number placed
/// it.
#[derive(Debug, Clone, Copy)]
pub struct GridLines {
    pub row_start: Option<i32>,
    pub row_end: Option<i32>,
    pub col_start: Option<i32>,
    pub col_end: Option<i32>,
}

/// The lines between which an item is placed.
#[derive(Debug, Clone, Copy, PartialEq, Eq, Structural)]
pub struct GridArea {
    pub row_start: i32,
    pub row_end: i32,
    pub col_start: i32,
    pub col_end: i32,
}

/// Lines as (row start, row end, column start, column end).
pub type LinesView = (Option<int>, Option<int>, Option<int>, Option<int>);

/// An area as (row start, row end, column start, column end).
pub type AreaView = (int, int, int, int);

pub open spec fn opt_int(o: Option<i32>) -> Option<int> {
    match o {
        Some(v) => Some(v as int),
        None => None,
    }
}

impl GridLines {
    pub open spec fn view(&self) -> LinesView {
        (opt_int(self.row_start), opt_int(self.row_end), opt_int(self.col_start), opt_int(self.col_end))
    }
}

impl GridArea {
    pub open spec fn view(&self) -> AreaView {
        (self.row_start as int, self.row_end as int, self.col_start as int, self.col_end as int)
    }
}

pub open spec fn or_else(o: Option<int>, d: int) -> int {
    match o {
        Some(v) => v,
        None => d,
    }
}

pub open spec fn max_int(a: int, b: int) -> int {
    if a >= b {
        a
    } else {
        b
    }
}

/// The first pass over the items: an item with a column line gets all four
/// lines (a missing start is line 0, a missing end one past the start) and
/// the grid grows to its ends; the others wait for auto-placement.
pub open spec fn explicit_pass(items: Seq<LinesView>, cols: int, rows: int) -> (Seq<LinesView>, int, int)
    decreases items.len(),
{
    if items.len() == 0 {
        (Seq::empty(), cols, rows)
    } else {
        let p = explicit_pass(items.drop_last(), cols, rows);
        let it = items.last();
        if it.2 is None && it.3 is None {
            (p.0.push(it), p.1, p.2)
        } else {
            let cs = or_else(it.2, 0);
            let ce = or_else(it.3, cs + 1);
            let rs = or_else(it.0, 0);
            let re = or_else(it.1, rs + 1);
            (p.0.push((Some(rs), Some(re), Some(cs), Some(ce))), max_int(p.1, ce), max_int(p.2, re))
        }
    }
}

/// The second pass: (areas, columns, rows, cursor row, cursor column). An
/// item placed in the first pass keeps its lines; any other takes the
/// cell at the cursor, which then moves along the row (or the column) and
/// wraps at the grid's current width (or height).
pub open spec fn auto_pass(items: Seq<LinesView>, cols: int, rows: int, row_flow: bool) -> (Seq<AreaView>, int, int, int, int)
    decreases items.len(),
{
    if items.len() == 0 {
        (Seq::empty(), cols, rows, 0, 0)
    } else {
        let p = auto_pass(items.drop_last(), cols, rows, row_flow);
        let it = items.last();
        let (cr, cc) = (p.3, p.4);
        if it.2 is Some && it.0 is Some {
            (p.0.push((or_else(it.0, 0), or_else(it.1, 0), or_else(it.2, 0), or_else(it.3, 0))), p.1, p.2, cr, cc)
        } else if row_flow {
            let (ncr, ncc) = if cc + 1 >= p.1 {
                (cr + 1, 0)
            } else {
                (cr, cc + 1)
            };
            (p.0.push((cr, cr + 1, cc, cc + 1)), max_int(p.1, cc + 1), max_int(p.2, cr + 1), ncr, ncc)
        } else {
            let (ncr, ncc) = if cr + 1 >= p.2 {
                (0, cc + 1)
            } else {
                (cr + 1, cc)
            };
            (p.0.push((cr, cr + 1, cc, cc + 1)), max_int(p.1, cc + 1), max_int(p.2, cr + 1), ncr, ncc)
        }
    }
}

/// Where every item goes, and the grid's columns and rows: at least one of
/// each, at least the explicit ones, and enough to hold every item.
pub open spec fn placement_of(items: Seq<LinesView>, explicit_cols: int, explicit_rows: int, row_flow: bool) -> (Seq<AreaView>, int, int) {
    let e = explicit_pass(items, max_int(explicit_cols, 1), max_int(explicit_rows, 1));
    let a = auto_pass(e.0, e.1, e.2, row_flow);
    (a.0, a.1, a.2)
}

/// The lines are on the grid: 0 or after, and not the very last `i32`.
pub open spec fn lines_ok(it: LinesView) -> bool {
    &&& (it.0 matches Some(v) ==> 0 <= v < i32::MAX)
    &&& (it.1 matches Some(v) ==> 0 <= v < i32::MAX)
    &&& (it.2 matches Some(v) ==> 0 <= v < i32::MAX)
    &&& (it.3 matches Some(v) ==> 0 <= v < i32::MAX)
}

/// The lines are 0 or after.
pub open spec fn lines_in_range(it: LinesView) -> bool {
    &&& (it.0 matches Some(v) ==> 0 <= v <= i32::MAX)
    &&& (it.1 matches Some(v) ==> 0 <= v <= i32::MAX)
    &&& (it.2 matches Some(v) ==> 0 <= v <= i32::MAX)
    &&& (it.3 matches Some(v) ==> 0 <= v <= i32::MAX)
}

/// Place grid items.
pub fn place_grid_items(items: &Vec<GridLines>, explicit_cols: usize, explicit_rows: usize, row_flow: bool) -> (r: (
    Vec<GridArea>,
    usize,
    usize,
))
    requires
        forall|i: int| 0 <= i < items@.len() ==> lines_ok(#[trigger] items@[i]@),
        explicit_cols <= i32::MAX,
        explicit_rows <= i32::MAX,
        items@.len() < i32::MAX,
    ensures
        r.0@.map_values(|a: GridArea| a@) == placement_of(
            items@.map_values(|g: GridLines| g@),
            explicit_cols as int,
            explicit_rows as int,
            row_flow,
        ).0,
        r.1 as int == placement_of(items@.map_values(|g: GridLines| g@), explicit_cols as int, explicit_rows as int, row_flow).1,
        r.2 as int == placement_of(items@.map_values(|g: GridLines| g@), explicit_cols as int, explicit_rows as int, row_flow).2,
{
    let ghost iv = items@.map_values(|g: GridLines| g@);
    let mut cols: usize = if explicit_cols > 1 {
        explicit_cols
    } else {
        1
    };
    let mut rows: usize = if explicit_rows > 1 {
        explicit_rows
    } else {
        1
    };
    let ghost c0 = cols as int;
    let ghost r0 = rows as int;
    // First pass: items with a column line.
    let mut placed: Vec<GridLines> = Vec::new();
    let mut i: usize = 0;
    assert(iv.take(0) =~= Seq::<LinesView>::empty());
    assert(placed@.map_values(|g: GridLines| g@) =~= Seq::<LinesView>::empty());
    while i < items.len()
        invariant
            iv == items@.map_values(|g: GridLines| g@),
            forall|t: int| 0 <= t < items@.len() ==> lines_ok(#[trigger] items@[t]@),
            i <= items.len(),
            1 <= cols <= i32::MAX,
            1 <= rows <= i32::MAX,
            placed@.len() == i,
            forall|t: int| 0 <= t < placed@.len() ==> lines_in_range(#[trigger] placed@[t]@),
            explicit_pass(iv.take(i as int), c0, r0) == (placed@.map_values(|g: GridLines| g@), cols as int, rows as int),
        decreases items.len() - i,
    {
        let it = items[i];
        let ghost before = placed@;
        proof {
            assert(iv.take(i + 1).drop_last() =~= iv.take(i as int));
            assert(iv.take(i + 1).last() == it@);
            assert(lines_ok(items@[i as int]@));
        }
        if it.col_start.is_none() && it.col_end.is_none() {
            placed.push(it);
        } else {
            let cs: i32 = match it.col_start {
                Some(v) => v,
                None => 0,
            };
            let ce: i32 = match it.col_end {
                Some(v) => v,
                None => cs + 1,
            };
            let rs: i32 = match it.row_start {
                Some(v) => v,
                None => 0,
            };
            let re: i32 = match it.row_end {
                Some(v) => v,
                None => rs + 1,
            };
            placed.push(GridLines { row_start: Some(rs), row_end: Some(re), col_start: Some(cs), col_end: Some(ce) });
            if ce as usize > cols {
                cols = ce as usize;
            }
            if re as usize > rows {
                rows = re as usize;
            }
        }
        proof {
            assert(placed@.map_values(|g: GridLines| g@) =~= before.map_values(|g: GridLines| g@).push(placed@[i as int]@));
        }
        i += 1;
    }
    proof {
        assert(iv.take(items.len() as int) =~= iv);
    }
    let ghost ev = placed@.map_values(|g: GridLines| g@);
    let ghost c1 = cols as int;
    let ghost r1 = rows as int;
    // Second pass: auto-placement.
    let mut areas: Vec<GridArea> = Vec::new();
    let mut cursor_row: i32 = 0;
    let mut cursor_col: i32 = 0;
    let mut k: usize = 0;
    assert(ev.take(0) =~= Seq::<LinesView>::empty());
    assert(areas@.map_values(|a: GridArea| a@) =~= Seq::<AreaView>::empty());
    while k < placed.len()
        invariant
            ev == placed@.map_values(|g: GridLines| g@),
            forall|t: int| 0 <= t < placed@.len() ==> lines_in_range(#[trigger] placed@[t]@),
            areas@.len() == k,
            placed@.len() == items@.len(),
            items@.len() < i32::MAX,
            k <= placed.len(),
            1 <= cols <= i32::MAX,
            1 <= rows <= i32::MAX,
            0 <= cursor_row,
            0 <= cursor_col,
            row_flow ==> cursor_col < cols && cursor_row <= k,
            !row_flow ==> cursor_row < rows && cursor_col <= k,
            auto_pass(ev.take(k as int), c1, r1, row_flow) == (
                areas@.map_values(|a: GridArea| a@),
                cols as int,
                rows as int,
                cursor_row as int,
                cursor_col as int,
            ),
        decreases placed.len() - k,
    {
        let it = placed[k];
        let ghost before = areas@;
        proof {
            assert(ev.take(k + 1).drop_last() =~= ev.take(k as int));
            assert(ev.take(k + 1).last() == it@);
            assert(lines_in_range(placed@[k as int]@));
        }
        if it.col_start.is_some() && it.row_start.is_some() {
            let a = GridArea {
                row_start: match it.row_start {
                    Some(v) => v,
                    None => 0,
                },
                row_end: match it.row_end {
                    Some(v) => v,
                    None => 0,
                },
                col_start: match it.col_start {
                    Some(v) => v,
                    None => 0,
                },
                col_end: match it.col_end {
                    Some(v) => v,
                    None => 0,
                },
            };
            areas.push(a);
        } else {
            let a = GridArea {
                row_start: cursor_row,
                row_end: cursor_row + 1,
                col_start: cursor_col,
                col_end: cursor_col + 1,
            };
            areas.push(a);
            if row_flow {
                if cursor_col + 1 >= cols as i32 {
                    cursor_col = 0;
                    cursor_row = cursor_row + 1;
                } else {
                    cursor_col = cursor_col + 1;
                }
            } else {
                if cursor_row + 1 >= rows as i32 {
                    cursor_row = 0;
                    cursor_col = cursor_col + 1;
                } else {
                    cursor_row = cursor_row + 1;
                }
            }
            if a.col_end as usize > cols {
                cols = a.col_end as usize;
            }
            if a.row_end as usize > rows {
                rows = a.row_end as usize;
            }
        }
        proof {
            assert(areas@.map_values(|a: GridArea| a@) =~= before.map_values(|a: GridArea| a@).push(areas@[k as int]@));
        }
        k += 1;
    }
    proof {
        assert(ev.take(placed.len() as int) =~= ev);
    }
    (areas, cols, rows)
}

/// A placed item's ends are within `cols` columns and `rows` rows.
pub open spec fn ends_within(it: LinesView, cols: int, rows: int) -> bool {
    (it.2 is Some && it.0 is Some) ==> or_else(it.3, 0) <= cols && or_else(it.1, 0) <= rows
}

proof fn lemma_explicit_pass(items: Seq<LinesView>, cols: int, rows: int)
    ensures
        explicit_pass(items, cols, rows).0.len() == items.len(),
        explicit_pass(items, cols, rows).1 >= cols,
        explicit_pass(items, cols, rows).2 >= rows,
        forall|i: int|
            0 <= i < items.len() ==> ends_within(
                #[trigger] explicit_pass(items, cols, rows).0[i],
                explicit_pass(items, cols, rows).1,
                explicit_pass(items, cols, rows).2,
            ),
    decreases items.len(),
{
    if items.len() > 0 {
        lemma_explicit_pass(items.drop_last(), cols, rows);
        let p = explicit_pass(items.drop_last(), cols, rows);
        let q = explicit_pass(items, cols, rows);
        assert forall|i: int| 0 <= i < items.len() implies ends_within(#[trigger] q.0[i], q.1, q.2) by {
            if i < items.len() - 1 {
                assert(q.0[i] == p.0[i]);
                assert(ends_within(p.0[i], p.1, p.2));
            }
        }
    }
}

proof fn lemma_auto_pass(items: Seq<LinesView>, cols: int, rows: int, row_flow: bool)
    requires
        forall|i: int| 0 <= i < items.len() ==> ends_within(#[trigger] items[i], cols, rows),
    ensures
        auto_pass(items, cols, rows, row_flow).0.len() == items.len(),
        auto_pass(items, cols, rows, row_flow).1 >= cols,
        auto_pass(items, cols, rows, row_flow).2 >= rows,
        forall|i: int|
            0 <= i < items.len() ==> (#[trigger] auto_pass(items, cols, rows, row_flow).0[i]).3 <= auto_pass(
                items,
                cols,
                rows,
                row_flow,
            ).1 && auto_pass(items, cols, rows, row_flow).0[i].1 <= auto_pass(items, cols, rows, row_flow).2,
    decreases items.len(),
{
    if items.len() > 0 {
        let d = items.drop_last();
        assert forall|i: int| 0 <= i < d.len() implies ends_within(#[trigger] d[i], cols, rows) by {
            assert(d[i] == items[i]);
        }
        lemma_auto_pass(d, cols, rows, row_flow);
        let p = auto_pass(d, cols, rows, row_flow);
        let q = auto_pass(items, cols, rows, row_flow);
        assert(ends_within(items[items.len() - 1], cols, rows));
        assert forall|i: int| 0 <= i < items.len() implies (#[trigger] q.0[i]).3 <= q.1 && q.0[i].1 <= q.2 by {
            if i < items.len() - 1 {
                assert(q.0[i] == p.0[i]);
            }
        }
    }
}

proof fn lemma_explicit_item(items: Seq<LinesView>, cols: int, rows: int, i: int)
    requires
        0 <= i < items.len(),
    ensures
        explicit_pass(items, cols, rows).0.len() == items.len(),
        (items[i].2 is None && items[i].3 is None) ==> explicit_pass(items, cols, rows).0[i] == items[i],
        !(items[i].2 is None && items[i].3 is None) ==> explicit_pass(items, cols, rows).0[i] == (
            Some(or_else(items[i].0, 0)),
            Some(or_else(items[i].1, or_else(items[i].0, 0) + 1)),
            Some(or_else(items[i].2, 0)),
            Some(or_else(items[i].3, or_else(items[i].2, 0) + 1)),
        ),
    decreases items.len(),
{
    lemma_explicit_pass(items, cols, rows);
    if i < items.len() - 1 {
        lemma_explicit_item(items.drop_last(), cols, rows, i);
        assert(items.drop_last()[i] == items[i]);
        assert(explicit_pass(items, cols, rows).0[i] == explicit_pass(items.drop_last(), cols, rows).0[i]);
    }
}

proof fn lemma_auto_cursor(items: Seq<LinesView>, cols: int, rows: int, row_flow: bool)
    ensures
        auto_pass(items, cols, rows, row_flow).3 >= 0,
        auto_pass(items, cols, rows, row_flow).4 >= 0,
        auto_pass(items, cols, rows, row_flow).0.len() == items.len(),
    decreases items.len(),
{
    if items.len() > 0 {
        lemma_auto_cursor(items.drop_last(), cols, rows, row_flow);
    }
}

proof fn lemma_auto_item(items: Seq<LinesView>, cols: int, rows: int, row_flow: bool, i: int)
    requires
        0 <= i < items.len(),
    ensures
        (items[i].2 is Some && items[i].0 is Some) ==> auto_pass(items, cols, rows, row_flow).0[i] == (
            or_else(items[i].0, 0),
            or_else(items[i].1, 0),
            or_else(items[i].2, 0),
            or_else(items[i].3, 0),
        ),
        !(items[i].2 is Some && items[i].0 is Some) ==> {
            let a = auto_pass(items, cols, rows, row_flow).0[i];
            0 <= a.0 && a.1 == a.0 + 1 && 0 <= a.2 && a.3 == a.2 + 1
        },
    decreases items.len(),
{
    let d = items.drop_last();
    lemma_auto_cursor(d, cols, rows, row_flow);
    if i < items.len() - 1 {
        lemma_auto_item(d, cols, rows, row_flow, i);
        assert(d[i] == items[i]);
        assert(auto_pass(items, cols, rows, row_flow).0[i] == auto_pass(d, cols, rows, row_flow).0[i]);
    }
}

/// Where each item goes. An item with a column line keeps the lines it
/// gives, a missing start being line 0 and a missing end one line past its
/// start; so an item with a row start and no row end spans exactly one
/// row. Any other item takes one cell, on lines 0 or after. Whenever the
/// end lines that an item gives lie after its start lines, its area runs
/// forward: start before end in rows and in columns.
pub proof fn law_grid_item_area(items: Seq<LinesView>, explicit_cols: int, explicit_rows: int, row_flow: bool, i: int)
    requires
        0 <= i < items.len(),
    ensures
        (items[i].2 is Some || items[i].3 is Some) ==> ({
            let it = items[i];
            let a = placement_of(items, explicit_cols, explicit_rows, row_flow).0[i];
            &&& a.0 == (match it.0 { Some(s) => s, None => 0 })
            &&& a.1 == (match it.1 { Some(e) => e, None => a.0 + 1 })
            &&& a.2 == (match it.2 { Some(s) => s, None => 0 })
            &&& a.3 == (match it.3 { Some(e) => e, None => a.2 + 1 })
        }),
        (items[i].2 is None && items[i].3 is None) ==> ({
            let a = placement_of(items, explicit_cols, explicit_rows, row_flow).0[i];
            0 <= a.0 && a.1 == a.0 + 1 && 0 <= a.2 && a.3 == a.2 + 1
        }),
        ({
            let it = items[i];
            let a = placement_of(items, explicit_cols, explicit_rows, row_flow).0[i];
            (it.1 matches Some(e) ==> e > a.0) && (it.3 matches Some(e) ==> e > a.2) ==> a.0 < a.1 && a.2 < a.3
        }),
{
    let c = max_int(explicit_cols, 1);
    let r = max_int(explicit_rows, 1);
    let e = explicit_pass(items, c, r);
    lemma_explicit_item(items, c, r, i);
    lemma_auto_item(e.0, e.1, e.2, row_flow, i);
}

/// The grid holds every item: each item gets an area, and the grid has at
/// least one column and row, at least the explicit ones, and enough to
/// reach every area's end lines.
pub proof fn law_grid_holds_every_item(items: Seq<LinesView>, explicit_cols: int, explicit_rows: int, row_flow: bool)
    ensures
        placement_of(items, explicit_cols, explicit_rows, row_flow).0.len() == items.len(),
        placement_of(items, explicit_cols, explicit_rows, row_flow).1 >= max_int(explicit_cols, 1),
        placement_of(items, explicit_cols, explicit_rows, row_flow).2 >= max_int(explicit_rows, 1),
        forall|i: int|
            0 <= i < items.len() ==> (#[trigger] placement_of(items, explicit_cols, explicit_rows, row_flow).0[i]).3
                <= placement_of(items, explicit_cols, explicit_rows, row_flow).1 && placement_of(
                items,
                explicit_cols,
                explicit_rows,
                row_flow,
            ).0[i].1 <= placement_of(items, explicit_cols, explicit_rows, row_flow).2,
{
    let c = max_int(explicit_cols, 1);
    let r = max_int(explicit_rows, 1);
    lemma_explicit_pass(items, c, r);
    let e = explicit_pass(items, c, r);
    assert forall|i: int| 0 <= i < e.0.len() implies ends_within(#[trigger] e.0[i], e.1, e.2) by {}
    lemma_auto_pass(e.0, e.1, e.2, row_flow);
}

} // verus!
