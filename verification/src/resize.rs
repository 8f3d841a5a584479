//! Resizing the grid: rows enter or leave the screen, and wrapped rows reflow to a new width.

use vstd::prelude::*;

use crate::grid::{blank_row, continuation_mark, continuation_of, Cell, Cursor, Grid, Row, RowMark, MAX_LINES};
use crate::prompt::min_int;
use crate::index::{Column, Line, Point};
use crate::term::Term;

verus! {

/// Split the cells beyond `columns` off a row. They are handed back without trailing empty
/// cells, or not at all when nothing remains of them.
fn split_cells(cells: &mut Vec<Cell>, columns: usize) -> (wrapped: Option<Vec<Cell>>)
    ensures
        old(cells)@.len() <= columns ==> final(cells)@ == old(cells)@ && wrapped is None,
        old(cells)@.len() > columns ==> final(cells)@ == old(cells)@.subrange(0, columns as int),
        wrapped matches Some(w) ==> 0 < w@.len() <= old(cells)@.len() - columns && w@
            == old(cells)@.subrange(columns as int, columns + w@.len()),
        // What is not handed back is empty.
        forall|k: int|
            columns + (match wrapped {
                Some(w) => w@.len() as int,
                None => 0int,
            }) <= k < old(cells)@.len() ==> (#[trigger] old(cells)@[k]).empty(),
        text(old(cells)@) == text(final(cells)@) + text_of(wrapped),
{
    if cells.len() <= columns {
        proof {
            lemma_split_text(cells@, cells@, None, columns as int);
        }
        return None;
    }
    let ghost whole = cells@;
    let mut rest = cells.split_off(columns);

    // Drop the empty cells at the end.
    let mut end = rest.len();
    while end > 0 && rest[end - 1].is_empty()
        invariant
            end <= rest@.len(),
            rest@ == whole.subrange(columns as int, whole.len() as int),
            forall|k: int| end <= k < rest@.len() ==> (#[trigger] rest@[k]).empty(),
        decreases end,
    {
        end = end - 1;
    }
    assert forall|k: int| columns + end <= k < whole.len() implies (#[trigger] whole[k]).empty() by {
        assert(whole[k] == rest@[k - columns]);
    }
    rest.truncate(end);
    assert(rest@ =~= whole.subrange(columns as int, columns + end));
    let wrapped = if end == 0 {
        None
    } else {
        Some(rest)
    };
    proof {
        lemma_split_text(whole, cells@, wrapped, columns as int);
    }
    wrapped
}

/// Append blank cells until the row is `columns` long.
fn pad_cells(cells: &mut Vec<Cell>, columns: usize)
    ensures
        final(cells)@.len() == if old(cells)@.len() < columns {
            columns as int
        } else {
            old(cells)@.len() as int
        },
        forall|i: int| 0 <= i < old(cells)@.len() ==> #[trigger] final(cells)@[i] == old(cells)@[i],
        forall|i: int|
            old(cells)@.len() <= i < final(cells)@.len() ==> #[trigger] final(cells)@[i]
                == Cell::spec_blank(),
{
    while cells.len() < columns
        invariant
            old(cells)@.len() <= cells@.len(),
            old(cells)@.len() < columns ==> cells@.len() <= columns,
            old(cells)@.len() >= columns ==> cells@.len() == old(cells)@.len(),
            forall|i: int| 0 <= i < old(cells)@.len() ==> #[trigger] cells@[i] == old(cells)@[i],
            forall|i: int|
                old(cells)@.len() <= i < cells@.len() ==> #[trigger] cells@[i] == Cell::spec_blank(),
        decreases columns - cells@.len(),
    {
        cells.push(Cell::blank());
    }
}

/// The cells of a row made exactly `columns` long: cut off at the end, or padded with blank
/// cells.
pub open spec fn fitted_cells(cells: Seq<Cell>, columns: nat) -> Seq<Cell> {
    if cells.len() >= columns {
        cells.subrange(0, columns as int)
    } else {
        cells + crate::grid::blank_cells((columns - cells.len()) as nat)
    }
}

/// A cell that shows text: a character other than a space, and no placeholder for a wide
/// character that continues on the next row.
pub open spec fn shown(cell: Cell) -> bool {
    cell.c != ' ' && !cell.leading_wide_char_spacer
}

/// The text of a row: the characters of its cells that show text, in order.
pub open spec fn text(cells: Seq<Cell>) -> Seq<char>
    decreases cells.len(),
{
    if cells.len() == 0 {
        Seq::empty()
    } else {
        text(cells.drop_last()) + if shown(cells.last()) {
            seq![cells.last().c]
        } else {
            Seq::empty()
        }
    }
}

/// The text of rows, row after row.
pub open spec fn text_rows(rows: Seq<Row>) -> Seq<char>
    decreases rows.len(),
{
    if rows.len() == 0 {
        Seq::empty()
    } else {
        text_rows(rows.drop_last()) + text(rows.last().cells@)
    }
}

proof fn lemma_text_append(a: Seq<Cell>, b: Seq<Cell>)
    ensures
        text(a + b) == text(a) + text(b),
    decreases b.len(),
{
    if b.len() == 0 {
        assert(a + b =~= a);
    } else {
        lemma_text_append(a, b.drop_last());
        assert((a + b).drop_last() =~= a + b.drop_last());
        assert((a + b).last() == b.last());
    }
}

/// Cells that show no text add none.
proof fn lemma_text_hidden(a: Seq<Cell>)
    requires
        forall|i: int| 0 <= i < a.len() ==> !shown(#[trigger] a[i]),
    ensures
        text(a) == Seq::<char>::empty(),
    decreases a.len(),
{
    if a.len() > 0 {
        lemma_text_hidden(a.drop_last());
    }
}

/// Changing a cell for one with the same text keeps the text.
proof fn lemma_text_update(a: Seq<Cell>, i: int, cell: Cell)
    requires
        0 <= i < a.len(),
        shown(cell) == shown(a[i]),
        shown(cell) ==> cell.c == a[i].c,
    ensures
        text(a.update(i, cell)) == text(a),
{
    lemma_text_append(a.take(i), a.skip(i));
    lemma_text_append(a.update(i, cell).take(i), a.update(i, cell).skip(i));
    assert(a.take(i) + a.skip(i) =~= a);
    assert(a.update(i, cell).take(i) + a.update(i, cell).skip(i) =~= a.update(i, cell));
    assert(a.update(i, cell).take(i) =~= a.take(i));
    let r = a.skip(i);
    let u = a.update(i, cell).skip(i);
    lemma_text_append(seq![r[0]], r.skip(1));
    lemma_text_append(seq![u[0]], u.skip(1));
    assert(seq![r[0]] + r.skip(1) =~= r);
    assert(seq![u[0]] + u.skip(1) =~= u);
    assert(u.skip(1) =~= r.skip(1));
    assert(seq![r[0]].drop_last() =~= Seq::<Cell>::empty());
    assert(seq![u[0]].drop_last() =~= Seq::<Cell>::empty());
}

/// The rows of a prefix one longer add the text of the next row.
proof fn lemma_text_rows_take(rows: Seq<Row>, j: int)
    requires
        0 <= j < rows.len(),
    ensures
        text_rows(rows.take(j + 1)) == text_rows(rows.take(j)) + text(rows[j].cells@),
{
    assert(rows.take(j + 1).drop_last() =~= rows.take(j));
}

/// Pushing a row adds its text.
proof fn lemma_text_rows_push(rows: Seq<Row>, row: Row)
    ensures
        text_rows(rows.push(row)) == text_rows(rows) + text(row.cells@),
{
    assert(rows.push(row).drop_last() =~= rows);
}

/// The text of rows split in two is that of the first part, then that of the second.
proof fn lemma_text_rows_append(a: Seq<Row>, b: Seq<Row>)
    ensures
        text_rows(a + b) == text_rows(a) + text_rows(b),
    decreases b.len(),
{
    if b.len() == 0 {
        assert(a + b =~= a);
    } else {
        lemma_text_rows_append(a, b.drop_last());
        assert((a + b).drop_last() =~= a + b.drop_last());
    }
}

/// Rows cut off at `columns`, one more.
proof fn lemma_cut_rows_extend(before: Seq<Row>, now: Seq<Row>, orig: Seq<Row>, j: int, columns: int)
    requires
        1 <= j <= orig.len(),
        before.len() + 1 == j,
        now.len() == j,
        forall|k: int|
            #![trigger before[k]]
            0 <= k < j - 1 ==> before[k].cells@ == orig[k].cells@.subrange(0, columns)
                && before[k].mark == orig[k].mark,
        forall|k: int| 0 <= k < before.len() ==> #[trigger] now[k] == before[k],
        now[j - 1].cells@ == orig[j - 1].cells@.subrange(0, columns),
        now[j - 1].mark == orig[j - 1].mark,
    ensures
        forall|k: int|
            #![trigger now[k]]
            0 <= k < j ==> now[k].cells@ == orig[k].cells@.subrange(0, columns)
                && now[k].mark == orig[k].mark,
{
    assert forall|k: int| #![trigger now[k]] 0 <= k < j implies now[k].cells@ == orig[k].cells@.subrange(
        0,
        columns,
    ) && now[k].mark == orig[k].mark by {
        if k < j - 1 {
            assert(now[k] == before[k]);
            assert(before[k].cells@ == orig[k].cells@.subrange(0, columns));
            assert(now[k].cells@ == before[k].cells@);
        } else {
            assert(k == j - 1);
        }
    }
}

/// The text of cells that may be there.
pub open spec fn text_of(cells: Option<Vec<Cell>>) -> Seq<char> {
    match cells {
        Some(c) => text(c@),
        None => Seq::empty(),
    }
}

/// Splitting a row keeps its text: that of the part kept, then that of the part handed back.
proof fn lemma_split_text(whole: Seq<Cell>, kept: Seq<Cell>, wrapped: Option<Vec<Cell>>, columns: int)
    requires
        whole.len() <= columns ==> kept == whole && wrapped is None,
        whole.len() > columns ==> kept == whole.subrange(0, columns),
        wrapped matches Some(w) ==> 0 < w@.len() <= whole.len() - columns && w@ == whole.subrange(
            columns,
            columns + w@.len(),
        ),
        forall|k: int|
            columns + (match wrapped {
                Some(w) => w@.len() as int,
                None => 0int,
            }) <= k < whole.len() ==> (#[trigger] whole[k]).empty(),
        0 <= columns,
    ensures
        text(whole) == text(kept) + text_of(wrapped),
{
    if whole.len() > columns {
        let n = match wrapped {
            Some(w) => w@.len() as int,
            None => 0int,
        };
        let mid = whole.subrange(columns, columns + n);
        let rest = whole.subrange(columns + n, whole.len() as int);
        assert(whole =~= kept + mid + rest);
        assert forall|i: int| 0 <= i < rest.len() implies !shown(#[trigger] rest[i]) by {
            assert(rest[i] == whole[columns + n + i]);
            assert(whole[columns + n + i].empty());
        }
        lemma_text_hidden(rest);
        lemma_text_append(kept + mid, rest);
        lemma_text_append(kept, mid);
        assert(rest.len() >= 0);
        if wrapped is None {
            assert(mid =~= Seq::<Cell>::empty());
        }
        assert(text(kept + mid + rest) == text(kept + mid) + Seq::<char>::empty());
        assert(text(kept + mid) + Seq::<char>::empty() =~= text(kept + mid));
    }
}

/// Rows whose rows have the same texts have the same text.
proof fn lemma_text_rows_same(a: Seq<Row>, b: Seq<Row>)
    requires
        a.len() == b.len(),
        forall|k: int| 0 <= k < a.len() ==> #[trigger] text(a[k].cells@) == text(b[k].cells@),
    ensures
        text_rows(a) == text_rows(b),
    decreases a.len(),
{
    if a.len() > 0 {
        lemma_text_rows_same(a.drop_last(), b.drop_last());
    }
}

/// Blank cells added at the end add no text.
proof fn lemma_text_padded(a: Seq<Cell>, padded: Seq<Cell>)
    requires
        a.len() <= padded.len(),
        forall|i: int| 0 <= i < a.len() ==> #[trigger] padded[i] == a[i],
        forall|i: int| a.len() <= i < padded.len() ==> #[trigger] padded[i] == Cell::spec_blank(),
    ensures
        text(padded) == text(a),
{
    let tail = padded.subrange(a.len() as int, padded.len() as int);
    assert(padded =~= a + tail);
    assert forall|i: int| 0 <= i < tail.len() implies !shown(#[trigger] tail[i]) by {
        assert(tail[i] == padded[a.len() + i]);
    }
    lemma_text_hidden(tail);
    lemma_text_append(a, tail);
    assert(text(a) + Seq::<char>::empty() =~= text(a));
}

/// A row whose last cell shows no text has the text of the rest.
proof fn lemma_text_drop_hidden(a: Seq<Cell>)
    requires
        a.len() > 0,
        !shown(a.last()),
    ensures
        text(a.drop_last()) == text(a),
{
    assert(text(a) == text(a.drop_last()) + Seq::<char>::empty());
    assert(text(a.drop_last()) + Seq::<char>::empty() =~= text(a.drop_last()));
}

/// `new` keeps the text of `old`, but for the text of the rows that went beyond the scrollback
/// limit, which come first: all of it while the grid holds fewer rows than the limit.
pub open spec fn text_kept(new: Grid, old: Grid) -> bool {
    exists|dropped: Seq<Row>|
        #[trigger] text_rows(dropped) + text_rows(new.rows@) == text_rows(old.rows@) && (
        new.rows@.len() < old.max_history + old.screen_lines ==> dropped.len() == 0)
}

/// The cell neither wraps nor takes part in a wide character.
pub open spec fn plain_cell(cell: Cell) -> bool {
    !cell.wrapline && !cell.wide_char && !cell.leading_wide_char_spacer
}

/// No cell of the sequence wraps or takes part in a wide character.
pub open spec fn plain_cells(cells: Seq<Cell>) -> bool {
    forall|c: int| 0 <= c < cells.len() ==> plain_cell(#[trigger] cells[c])
}

/// No row wraps into the next and none holds a wide character: each row is a line of its own.
pub open spec fn plain_rows(rows: Seq<Row>) -> bool {
    forall|k: int| 0 <= k < rows.len() ==> plain_cells(#[trigger] rows[k].cells@)
}

/// How far into its row the cursor stands: its column, one further when the next character
/// goes to a new row.
pub open spec fn cursor_offset(cursor: Cursor) -> int {
    cursor.point.column.0 + if cursor.input_needs_wrap {
        1int
    } else {
        0int
    }
}

/// A cursor `offset` cells into its row stands, at `columns` columns, in the same column of
/// the row piece that holds that offset; at an offset that is a whole multiple of the width,
/// it may instead stay in the last column of the piece before.
pub open spec fn column_follows(column: int, offset: int, columns: int) -> bool {
    ||| column == offset % columns
    ||| offset >= columns && offset % columns == 0 && column == columns - 1
}

/// One width more is one more width's worth of columns.
proof fn lemma_one_more_width(k: int, columns: int)
    by (nonlinear_arith)
    ensures
        (k + 1) * columns == k * columns + columns,
{
}

/// A column that lies whole widths short of an offset, and within the width, is the offset
/// modulo the width; a column at the width itself stands at a positive multiple of it.
proof fn lemma_column_of_offset(column: int, k: int, columns: int)
    requires
        0 <= k,
        0 < columns,
        0 <= column <= columns,
    ensures
        column < columns ==> (column + k * columns) % columns == column,
        column == columns ==> (column + k * columns) % columns == 0 && column + k * columns
            >= columns,
{
    if column < columns {
        vstd::arithmetic::div_mod::lemma_fundamental_div_mod_converse(
            column + k * columns,
            columns,
            k,
            column,
        );
    } else {
        lemma_one_more_width(k, columns);
        vstd::arithmetic::div_mod::lemma_fundamental_div_mod_converse(
            column + k * columns,
            columns,
            k + 1,
            0,
        );
        assert(k * columns >= 0) by (nonlinear_arith)
            requires
                k >= 0,
                columns > 0,
        ;
    }
}

/// Make a row exactly `columns` long, padding with blank cells or dropping cells at its end.
fn fit_cells(cells: &mut Vec<Cell>, columns: usize)
    ensures
        final(cells)@ == fitted_cells(old(cells)@, columns as nat),
{
    let ghost before = cells@;
    let n = cells.len();
    if n < columns {
        let mut k: usize = n;
        while k < columns
            invariant
                n <= k <= columns,
                cells@ == before + crate::grid::blank_cells((k - n) as nat),
            decreases columns - k,
        {
            cells.push(Cell::blank());
            k = k + 1;
            assert(cells@ =~= before + crate::grid::blank_cells((k - n) as nat));
        }
    } else {
        cells.truncate(columns);
    }
}

/// The cell a leading spacer leaves where a wide character did not fit.
fn leading_spacer() -> (cell: Cell)
    ensures
        cell == (Cell {
            c: ' ',
            wrapline: false,
            wide_char: false,
            wide_char_spacer: false,
            leading_wide_char_spacer: true,
        }),
{
    Cell {
        c: ' ',
        wrapline: false,
        wide_char: false,
        wide_char_spacer: false,
        leading_wide_char_spacer: true,
    }
}

/// Whether the last cell of a row carries the wrap flag.
fn ends_wrapped(cells: &Vec<Cell>) -> (r: bool)
    ensures
        r == (cells@.len() > 0 && cells@[cells@.len() - 1].wrapline),
{
    let n = cells.len();
    n > 0 && cells[n - 1].wrapline
}

/// Set the wrap flag of the last cell of a row, if it has one.
fn set_last_wrapline(cells: &mut Vec<Cell>, wrapline: bool)
    ensures
        final(cells)@ == if old(cells)@.len() > 0 {
            old(cells)@.update(
                old(cells)@.len() - 1,
                (Cell { wrapline, ..old(cells)@[old(cells)@.len() - 1] }),
            )
        } else {
            old(cells)@
        },
{
    let n = cells.len();
    if n > 0 {
        cells[n - 1].wrapline = wrapline;
    }
}

/// Take every row out of a grid, leaving it without rows.
fn take_rows(rows: &mut Vec<Row>) -> (taken: Vec<Row>)
    ensures
        taken@ == old(rows)@,
        final(rows)@.len() == 0,
{
    let mut taken: Vec<Row> = Vec::new();
    std::mem::swap(&mut taken, rows);
    taken
}

/// Take one row out of a vector, leaving an empty row in its place.
fn take_row(rows: &mut Vec<Row>, i: usize) -> (row: Row)
    requires
        i < old(rows)@.len(),
    ensures
        row == old(rows)@[i as int],
        final(rows)@.len() == old(rows)@.len(),
        forall|j: int| 0 <= j < old(rows)@.len() && j != i ==> #[trigger] final(rows)@[j] == old(
            rows,
        )@[j],
{
    let mut row = Row { cells: Vec::new(), mark: crate::grid::RowMark::Unmarked };
    std::mem::swap(&mut row, &mut rows[i]);
    row
}


/// Every row of a sequence is `columns` long.
pub open spec fn rows_of_width(rows: Seq<Row>, columns: nat) -> bool {
    forall|k: int| 0 <= k < rows.len() ==> (#[trigger] rows[k]).cells@.len() == columns
}

/// Make every row exactly `columns` long.
fn fit_rows(rows: &mut Vec<Row>, columns: usize)
    ensures
        final(rows)@.len() == old(rows)@.len(),
        rows_of_width(final(rows)@, columns as nat),
        forall|k: int| 0 <= k < old(rows)@.len() ==> #[trigger] final(rows)@[k].mark == old(
            rows,
        )@[k].mark,
        forall|k: int|
            0 <= k < old(rows)@.len() ==> #[trigger] final(rows)@[k].cells@ == fitted_cells(
                old(rows)@[k].cells@,
                columns as nat,
            ),
{
    let mut k: usize = 0;
    while k < rows.len()
        invariant
            k <= rows@.len(),
            rows@.len() == old(rows)@.len(),
            forall|m: int| 0 <= m < k ==> (#[trigger] rows@[m]).cells@.len() == columns,
            forall|m: int| 0 <= m < rows@.len() ==> #[trigger] rows@[m].mark == old(rows)@[m].mark,
            forall|m: int|
                0 <= m < k ==> #[trigger] rows@[m].cells@ == fitted_cells(
                    old(rows)@[m].cells@,
                    columns as nat,
                ),
            forall|m: int| k <= m < rows@.len() ==> #[trigger] rows@[m] == old(rows)@[m],
        decreases rows@.len() - k,
    {
        fit_cells(&mut rows[k].cells, columns);
        k = k + 1;
    }
}

/// The marks of a sequence of rows.
pub open spec fn marks_of(rows: Seq<Row>) -> Seq<RowMark> {
    rows.map_values(|r: Row| r.mark)
}

/// `new` holds the marks of rows that splitting rows marked `old` gives, in order: `origin`
/// names the old row of each new row, each old row starts a run of new rows with its own mark,
/// and the rows that continue the run carry the continuation of that mark.
pub open spec fn split_marks(new: Seq<RowMark>, old: Seq<RowMark>, origin: Seq<int>) -> bool {
    &&& origin.len() == new.len()
    &&& (old.len() == 0 <==> new.len() == 0)
    &&& new.len() > 0 ==> origin[0] == 0 && origin[new.len() - 1] == old.len() - 1
    &&& forall|i: int|
        0 <= i < new.len() ==> {
            &&& 0 <= origin[i] < old.len()
            &&& i > 0 ==> origin[i - 1] == origin[i] || origin[i - 1] + 1 == origin[i]
            &&& #[trigger] new[i] == if i == 0 || origin[i - 1] != origin[i] {
                old[origin[i]]
            } else {
                continuation_mark(old[origin[i]])
            }
        }
}

/// `new` holds the marks of the rows that a reflow to a smaller width keeps: the rows of the
/// split runs of `old`, without the oldest ones beyond `limit`.
pub open spec fn split_reflowed(new: Seq<RowMark>, old: Seq<RowMark>, limit: int) -> bool {
    exists|full: Seq<RowMark>, origin: Seq<int>|
        #[trigger] split_marks(full, old, origin) && new.len() == min_int(full.len() as int, limit)
            && new == full.subrange(full.len() - new.len(), full.len() as int)
}

/// `new` holds the marks of the rows that a reflow to a larger width keeps: rows of `old` in
/// their order, `kept` naming which, each with its own mark, then blank rows without a mark.
pub open spec fn merged_marks(new: Seq<RowMark>, old: Seq<RowMark>, kept: Seq<int>) -> bool {
    &&& kept.len() <= new.len()
    &&& forall|a: int, b: int| 0 <= a < b < kept.len() ==> #[trigger] kept[a] < #[trigger] kept[b]
    &&& forall|a: int|
        0 <= a < kept.len() ==> 0 <= #[trigger] kept[a] < old.len() && new[a] == old[kept[a]]
    &&& forall|a: int| kept.len() <= a < new.len() ==> #[trigger] new[a] == RowMark::Unmarked
}

/// No cell of a row but its last carries the wrap flag.
pub open spec fn wraps_only_at_end(cells: Seq<Cell>) -> bool {
    forall|i: int| 0 <= i < cells.len() - 1 ==> !(#[trigger] cells[i]).wrapline
}

/// The last cell of a row carries the wrap flag: the row continues on the next one.
pub open spec fn ends_wrapped_cells(cells: Seq<Cell>) -> bool {
    cells.len() > 0 && cells[cells.len() - 1].wrapline
}

/// Row `k` continues the row above it, which wraps into it.
pub open spec fn continues_wrapped(rows: Seq<Row>, k: int) -> bool {
    k > 0 && ends_wrapped_cells(rows[k - 1].cells@)
}

/// Every row carries the wrap flag at most on its last cell, as printing leaves it.
pub open spec fn rows_wrap_at_end(rows: Seq<Row>) -> bool {
    forall|k: int| 0 <= k < rows.len() ==> wraps_only_at_end(#[trigger] rows[k].cells@)
}

/// The old rows that a widening reflow keeps, `kept`, are the first of `all`, which holds every
/// old row that does not continue a wrapped row, in order; at most `dropped` rows of `all` are
/// dropped after them.
pub open spec fn keeps_unwrapped(kept: Seq<int>, rows: Seq<Row>, dropped: int) -> bool {
    exists|all: Seq<int>|
        #[trigger] all.take(kept.len() as int) == kept && kept.len() <= all.len() && all.len()
            - kept.len() <= dropped && (forall|a: int, b: int|
            0 <= a < b < all.len() ==> all[a] < all[b]) && forall|k: int|
            0 <= k < rows.len() && !continues_wrapped(rows, k) ==> exists|a: int|
                0 <= a < all.len() && #[trigger] all[a] == k
}

/// `new` is `old` after a widening reflow: the marks of the old rows it keeps, in order, then
/// blank rows; when wrap flags stand only at the ends of rows, every old row that does not
/// continue a wrapped row is kept, but for at most as many rows as lie below the cursor.
pub open spec fn widened(new: Grid, old: Grid) -> bool {
    exists|kept: Seq<int>|
        #[trigger] merged_marks(marks_of(new.rows@), marks_of(old.rows@), kept) && (
        rows_wrap_at_end(old.rows@) ==> keeps_unwrapped(
            kept,
            old.rows@,
            old.screen_lines - 1 - old.cursor.point.line.0,
        ))
}

/// Every old row before `upto` that does not continue a wrapped row is among `kept`.
pub open spec fn covers(kept: Seq<int>, rows: Seq<Row>, upto: int) -> bool {
    forall|k: int|
        0 <= k < upto && !continues_wrapped(rows, k) ==> exists|a: int|
            0 <= a < kept.len() && #[trigger] kept[a] == k
}

proof fn lemma_covers_push(kept: Seq<int>, rows: Seq<Row>, upto: int, x: int)
    requires
        covers(kept, rows, upto),
    ensures
        covers(kept.push(x), rows, upto),
{
    assert forall|k: int| 0 <= k < upto && !continues_wrapped(rows, k) implies exists|a: int|
        0 <= a < kept.push(x).len() && #[trigger] kept.push(x)[a] == k by {
        let a = choose|a: int| 0 <= a < kept.len() && #[trigger] kept[a] == k;
        assert(kept.push(x)[a] == k);
    }
}

proof fn lemma_covers_next(kept: Seq<int>, rows: Seq<Row>, upto: int)
    requires
        covers(kept, rows, upto),
        continues_wrapped(rows, upto) || (kept.len() > 0 && kept[kept.len() - 1] == upto),
    ensures
        covers(kept, rows, upto + 1),
{
    assert forall|k: int| 0 <= k < upto + 1 && !continues_wrapped(rows, k) implies exists|a: int|
        0 <= a < kept.len() && #[trigger] kept[a] == k by {
        if k == upto {
            assert(kept[kept.len() - 1] == upto);
        }
    }
}

/// A row that pulled the start of the next row up carries the wrap flag at most on its last
/// cell, and then only when the pulled row carried it there.
proof fn lemma_pulled_cells(head: Seq<Cell>, front: Seq<Cell>, source: Seq<Cell>, len: int)
    requires
        forall|i: int| 0 <= i < head.len() ==> !(#[trigger] head[i]).wrapline,
        wraps_only_at_end(source),
        1 <= len <= source.len(),
        front == source.take(len) || (front.len() == len && front.take(len - 1) == source.take(
            len - 1,
        ) && !front[len - 1].wrapline),
    ensures
        wraps_only_at_end(head + front),
        ends_wrapped_cells(head + front) ==> ends_wrapped_cells(source),
{
    let joined = head + front;
    assert forall|i: int| 0 <= i < joined.len() - 1 implies !(#[trigger] joined[i]).wrapline by {
        if i >= head.len() {
            let k = i - head.len();
            assert(joined[i] == front[k]);
            if front == source.take(len) {
                assert(front[k] == source[k]);
            } else if k < len - 1 {
                assert(front[k] == front.take(len - 1)[k]);
                assert(front[k] == source[k]);
            }
        }
    }
    if ends_wrapped_cells(joined) {
        assert(joined[joined.len() - 1] == front[len - 1]);
        if front == source.take(len) {
            assert(front[len - 1] == source[len - 1]);
        }
    }
}

/// A new run starts with the mark of the next old row.
proof fn lemma_split_marks_first(new: Seq<RowMark>, old: Seq<RowMark>, origin: Seq<int>, k: int)
    requires
        0 <= k < old.len(),
        split_marks(new, old.take(k), origin),
    ensures
        split_marks(new.push(old[k]), old.take(k + 1), origin.push(k)),
{
    let n = new.push(old[k]);
    let o = origin.push(k);
    assert forall|i: int| 0 <= i < n.len() implies {
        &&& 0 <= o[i] < old.take(k + 1).len()
        &&& i > 0 ==> o[i - 1] == o[i] || o[i - 1] + 1 == o[i]
        &&& #[trigger] n[i] == if i == 0 || o[i - 1] != o[i] {
            old.take(k + 1)[o[i]]
        } else {
            continuation_mark(old.take(k + 1)[o[i]])
        }
    } by {
        if i < new.len() {
            assert(new[i] == n[i]);
        }
    }
}

/// A run goes on with the continuation of the mark of its old row.
proof fn lemma_split_marks_continue(new: Seq<RowMark>, old: Seq<RowMark>, origin: Seq<int>, k: int)
    requires
        0 <= k < old.len(),
        new.len() > 0,
        split_marks(new, old.take(k + 1), origin),
    ensures
        split_marks(new.push(continuation_mark(old[k])), old.take(k + 1), origin.push(k)),
{
    let n = new.push(continuation_mark(old[k]));
    let o = origin.push(k);
    assert forall|i: int| 0 <= i < n.len() implies {
        &&& 0 <= o[i] < old.take(k + 1).len()
        &&& i > 0 ==> o[i - 1] == o[i] || o[i - 1] + 1 == o[i]
        &&& #[trigger] n[i] == if i == 0 || o[i - 1] != o[i] {
            old.take(k + 1)[o[i]]
        } else {
            continuation_mark(old.take(k + 1)[o[i]])
        }
    } by {
        if i < new.len() {
            assert(new[i] == n[i]);
        }
    }
}

/// The origins after one more row of a run was pushed: the first of the run for the `j`-th old
/// row when nothing of the run was pushed yet, else a row that continues it.
proof fn pushed_origin(
    origin: Seq<int>,
    pending: Seq<Row>,
    now: Seq<Row>,
    run_start: int,
    orig: Seq<Row>,
    j: int,
) -> (next: Seq<int>)
    requires
        1 <= j <= orig.len(),
        pending.len() >= run_start,
        now.len() == pending.len() + 1,
        forall|k: int| 0 <= k < pending.len() ==> #[trigger] now[k] == pending[k],
        pending.len() == run_start ==> now.last().mark == orig[j - 1].mark && split_marks(
            marks_of(pending),
            marks_of(orig).take(j - 1),
            origin,
        ),
        pending.len() > run_start ==> now.last().mark == continuation_mark(orig[j - 1].mark)
            && split_marks(marks_of(pending), marks_of(orig).take(j), origin),
    ensures
        next == origin.push(j - 1),
        split_marks(marks_of(now), marks_of(orig).take(j), next),
{
    assert(marks_of(now) =~= marks_of(pending).push(now.last().mark));
    assert(marks_of(orig)[j - 1] == orig[j - 1].mark);
    if pending.len() == run_start {
        lemma_split_marks_first(marks_of(pending), marks_of(orig), origin, j - 1);
    } else {
        lemma_split_marks_continue(marks_of(pending), marks_of(orig), origin, j - 1);
    }
    origin.push(j - 1)
}

impl Grid {
    /// Number of rows below the cursor row, counting from the bottom of the screen.
    fn cursor_buffer_line(&self) -> (n: usize)
        requires
            0 <= self.cursor.point.line.0 < self.screen_lines,
        ensures
            n == self.screen_lines - self.cursor.point.line.0 - 1,
    {
        self.screen_lines - (self.cursor.point.line.0 as usize) - 1
    }

    /// Shrink the rows to `columns`; with `reflow`, the cells beyond the new width wrap onto
    /// the next row, and a split row continues with the continuation of its mark.
    #[verifier::rlimit(100)]
    #[verifier::spinoff_prover]
    fn shrink_columns(&mut self, reflow: bool, columns: usize)
        requires
            old(self).wf(),
            2 <= columns < old(self).columns,
        ensures
            final(self).wf(),
            final(self).columns == columns,
            final(self).screen_lines == old(self).screen_lines,
            final(self).max_history == old(self).max_history,
            !reflow ==> columns_fitted(*final(self), *old(self)),
            reflow ==> split_reflowed(
                marks_of(final(self).rows@),
                marks_of(old(self).rows@),
                old(self).max_history + old(self).screen_lines,
            ),
            reflow ==> text_kept(*final(self), *old(self)),
            reflow && plain_rows(old(self).rows@) ==> column_follows(
                final(self).cursor.point.column.0 as int,
                cursor_offset(old(self).cursor),
                columns as int,
            ),
            reflow && plain_rows(old(self).rows@) ==> final(self).cursor.point.line.0
                <= old(self).cursor.point.line.0,
    {
        let lines = self.screen_lines;
        let old_columns = self.columns;
        self.columns = columns;

        // Remove the linewrap special case, by moving the cursor outside of the grid.
        if self.cursor.input_needs_wrap && reflow {
            self.cursor.input_needs_wrap = false;
            self.cursor.point.column = Column(self.cursor.point.column.0 + 1);
        }
        // Without wrapped rows or wide characters, the cursor moves by whole widths only.
        let ghost plain = reflow && plain_rows(old(self).rows@);
        let ghost offset: int = self.cursor.point.column.0 as int;
        let ghost l0: int = old(self).cursor.point.line.0 as int;
        let ghost cbl0: int = lines - l0 - 1;
        let ghost mut widths: int = 0;

        let mut rows = take_rows(&mut self.rows);
        let total = rows.len();
        let mut new_rows: Vec<Row> = Vec::new();
        let mut buffered: Option<Vec<Cell>> = None;
        let ghost orig = rows@;
        let ghost mut origin: Seq<int> = Seq::empty();
        proof {
            assert(marks_of(new_rows@) =~= Seq::empty());
            assert(marks_of(orig).take(0) =~= Seq::empty());
        }

        let mut j: usize = 0;
        while j < total
            invariant
                orig == old(self).rows@,
                split_marks(marks_of(new_rows@), marks_of(orig).take(j as int), origin),
                reflow ==> text_rows(new_rows@) + text_of(buffered) == text_rows(
                    orig.take(j as int),
                ),
                reflow ==> forall|k: int|
                    0 <= k < new_rows@.len() ==> (#[trigger] new_rows@[k]).cells@.len() <= columns,
                buffered is Some ==> j < total,
                orig.len() == total,
                forall|k: int| j <= k < total ==> #[trigger] rows@[k] == orig[k],
                !reflow ==> new_rows@.len() == j,
                !reflow ==> forall|k: int|
                    #![trigger new_rows@[k]]
                    0 <= k < j ==> new_rows@[k].cells@ == orig[k].cells@.subrange(
                        0,
                        columns as int,
                    ) && new_rows@[k].mark == orig[k].mark,
                !reflow ==> buffered is None,
                !reflow ==> self.cursor == old(self).cursor,
                !reflow ==> self.display_offset == old(self).display_offset,
                j <= total == rows@.len(),
                lines <= total,
                lines == self.screen_lines,
                1 <= lines <= MAX_LINES,
                2 <= columns < old_columns <= MAX_LINES,
                self.columns == columns,
                self.max_history == old(self).max_history,
                0 <= self.cursor.point.line.0 < lines,
                new_rows@.len() >= j,
                forall|k: int| j <= k < total ==> (#[trigger] rows@[k]).cells@.len() == old_columns,
                buffered matches Some(b) ==> b@.len() < columns,
                plain == (reflow && plain_rows(orig)),
                reflow ==> offset == cursor_offset(old(self).cursor),
                l0 == old(self).cursor.point.line.0,
                cbl0 == lines - l0 - 1,
                plain ==> buffered is None,
                plain ==> 0 <= widths && self.cursor.point.column.0 + widths * columns == offset,
                plain ==> self.cursor.point.line.0 <= l0,
                plain && j < total - cbl0 ==> self.cursor.point.line.0 == l0 && widths == 0,
                plain && j >= total - cbl0 ==> self.cursor.point.column.0 <= columns,
            decreases total - j,
        {
            let i = total - 1 - j;
            let mut row = take_row(&mut rows, j);
            j = j + 1;
            let ghost row_text = text_of(buffered) + text(row.cells@);
            proof {
                lemma_text_rows_take(orig, j - 1);
            }

            // Append lines left over from the previous row.
            if let Some(prefix) = buffered {
                // Add a column for every cell added before the cursor, if it goes beyond the new
                // width it is then later reflown.
                if i == self.cursor_buffer_line() {
                    self.cursor.point.column = Column(
                        self.cursor.point.column.0.saturating_add(prefix.len()),
                    );
                }
                let mut cells = prefix;
                let ghost front = cells@;
                let ghost back = row.cells@;
                cells.append(&mut row.cells);
                row.cells = cells;
                buffered = None;
                proof {
                    lemma_text_append(front, back);
                }
            }
            proof {
                if reflow {
                    assert(text(row.cells@) == row_text);
                    assert(text_rows(new_rows@) + text(row.cells@) =~= text_rows(
                        orig.take(j as int),
                    ));
                }
            }

            let ghost before = new_rows@;
            proof {
                if !reflow {
                    assert(before == new_rows@);
                }
                if plain {
                    assert(plain_cells(orig[j - 1].cells@));
                    assert(plain_cells(row.cells@));
                }
            }
            loop
                invariant_except_break
                    row.cells@.len() >= columns,
                    buffered is None,
                    reflow ==> text_rows(new_rows@) + text(row.cells@) == text_rows(
                        orig.take(j as int),
                    ),
                    new_rows@.len() + 1 >= j,
                    !reflow ==> new_rows@ == before && row == orig[j - 1],
                    new_rows@.len() == before.len() ==> row.mark == orig[j - 1].mark && split_marks(
                        marks_of(new_rows@),
                        marks_of(orig).take(j - 1),
                        origin,
                    ),
                    new_rows@.len() > before.len() ==> row.mark == continuation_mark(
                        orig[j - 1].mark,
                    ) && split_marks(marks_of(new_rows@), marks_of(orig).take(j as int), origin),
                    plain ==> plain_cells(row.cells@),
                invariant
                    1 <= j,
                    orig == old(self).rows@,
                    reflow ==> forall|k: int|
                        0 <= k < new_rows@.len() ==> (#[trigger] new_rows@[k]).cells@.len()
                            <= columns,
                    new_rows@.len() >= before.len(),
                    orig.len() == total,
                    forall|k: int| j <= k < total ==> #[trigger] rows@[k] == orig[k],
                    !reflow ==> {
                        &&& before.len() + 1 == j
                        &&& buffered is None
                        &&& self.cursor == old(self).cursor
                        &&& self.display_offset == old(self).display_offset
                    },
                    lines == self.screen_lines,
                    1 <= lines <= MAX_LINES,
                    2 <= columns < old_columns <= MAX_LINES,
                    self.columns == columns,
                    self.max_history == old(self).max_history,
                    0 <= self.cursor.point.line.0 < lines,
                    j <= total == rows@.len(),
                    i == total - j,
                    forall|k: int| j <= k < total ==> (#[trigger] rows@[k]).cells@.len() == old_columns,
                    buffered matches Some(b) ==> b@.len() < columns,
                    plain == (reflow && plain_rows(orig)),
                    l0 == old(self).cursor.point.line.0,
                    cbl0 == lines - l0 - 1,
                    plain ==> buffered is None,
                    plain ==> 0 <= widths && self.cursor.point.column.0 + widths * columns == offset,
                    plain ==> self.cursor.point.line.0 <= l0,
                    plain && i > cbl0 ==> self.cursor.point.line.0 == l0 && widths == 0,
                    plain && i < cbl0 ==> self.cursor.point.column.0 <= columns,
                    plain && i == cbl0 && self.cursor.point.line.0 < l0
                        ==> self.cursor.point.column.0 < columns,
                ensures
                    plain && i <= cbl0 ==> self.cursor.point.column.0 <= columns,
                    buffered matches Some(b) ==> b@.len() < columns,
                    buffered is Some ==> j < total,
                    reflow ==> text_rows(new_rows@) + text_of(buffered) == text_rows(
                        orig.take(j as int),
                    ),
                    new_rows@.len() >= j,
                    split_marks(marks_of(new_rows@), marks_of(orig).take(j as int), origin),
                    !reflow ==> {
                        &&& new_rows@.len() == j
                        &&& forall|k: int| 0 <= k < before.len() ==> #[trigger] new_rows@[k] == before[k]
                        &&& new_rows@[j - 1].cells@ == orig[j - 1].cells@.subrange(0, columns as int)
                        &&& new_rows@[j - 1].mark == orig[j - 1].mark
                    },
                decreases row.cells@.len(), self.cursor.point.column.0,
            {
                // Remove all cells which require reflowing.
                let ghost whole = row.cells@;
                let ghost target = text_rows(orig.take(j as int));
                let split = split_cells(&mut row.cells, columns);
                let mut wrapped = match split {
                    Some(wrapped) if reflow => wrapped,
                    _ => {
                        if reflow && i == self.cursor_buffer_line() && self.cursor.point.column.0
                            > columns {
                            // If there are empty cells before the cursor, we assume it is
                            // explicit whitespace and need to wrap it like normal content.
                            Vec::new()
                        } else {
                            // Since it fits, just push the existing line without any reflow.
                            let ghost pending = new_rows@;
                            let ghost kept_cells = row.cells@;
                            new_rows.push(row);
                            proof {
                                origin = pushed_origin(origin, pending, new_rows@, before.len() as int, orig, j as int);
                                if reflow {
                                    lemma_text_rows_push(pending, new_rows@.last());
                                    assert(new_rows@ =~= pending.push(new_rows@.last()));
                                    assert(split is None);
                                    assert(text_rows(new_rows@) + text_of(buffered) =~= target);
                                }
                            }
                            break;
                        }
                    },
                };

                proof {
                    assert(text_rows(new_rows@) + text(row.cells@) + text(wrapped@) =~= target);
                    if plain {
                        assert forall|c: int| 0 <= c < row.cells@.len() implies plain_cell(
                            #[trigger] row.cells@[c],
                        ) by {
                            assert(row.cells@[c] == whole[c]);
                        }
                        assert forall|c: int| 0 <= c < wrapped@.len() implies plain_cell(
                            #[trigger] wrapped@[c],
                        ) by {
                            assert(wrapped@[c] == whole[columns + c]);
                        }
                    }
                }
                // Insert spacer if a wide char would be wrapped into the last column.
                if row.cells.len() >= columns && row.cells[columns - 1].wide_char {
                    let wide_char = row.cells[columns - 1];
                    let ghost r0 = row.cells@;
                    let ghost w0 = wrapped@;
                    row.cells[columns - 1] = leading_spacer();
                    wrapped.insert(0, wide_char);
                    proof {
                        let head = r0.take(columns - 1);
                        assert(r0 =~= head.push(wide_char));
                        let spacer = row.cells@[columns - 1];
                        assert(row.cells@ =~= head.push(spacer));
                        assert(wrapped@ =~= seq![wide_char] + w0);
                        lemma_text_append(seq![wide_char], w0);
                        assert(seq![wide_char].drop_last() =~= Seq::<Cell>::empty());
                        assert(head.push(wide_char).drop_last() =~= head);
                        assert(head.push(spacer).drop_last() =~= head);
                        let shown_text = if shown(wide_char) {
                            seq![wide_char.c]
                        } else {
                            Seq::<char>::empty()
                        };
                        assert(text(head.push(wide_char)) == text(head) + shown_text);
                        assert(!shown(spacer));
                        assert(text(head.push(spacer)) == text(head) + Seq::<char>::empty());
                        assert(text(seq![wide_char]) == text(Seq::<Cell>::empty()) + shown_text);
                        assert(text(row.cells@) + text(wrapped@) =~= text(r0) + text(w0));
                    }
                }
                proof {
                    assert(text_rows(new_rows@) + text(row.cells@) + text(wrapped@) =~= target);
                }

                // Remove wide char spacer before shrinking.
                let len = wrapped.len();
                if len > 0 && wrapped[len - 1].leading_wide_char_spacer {
                    if len == 1 {
                        let ghost r0 = row.cells@;
                        row.cells[columns - 1].wrapline = true;
                        let ghost pending = new_rows@;
                        new_rows.push(row);
                        proof {
                            origin = pushed_origin(origin, pending, new_rows@, before.len() as int, orig, j as int);
                            lemma_text_update(r0, columns - 1, new_rows@.last().cells@[columns - 1]);
                            assert(new_rows@.last().cells@ =~= r0.update(
                                columns - 1,
                                new_rows@.last().cells@[columns - 1],
                            ));
                            lemma_text_drop_hidden(wrapped@);
                            assert(wrapped@.drop_last() =~= Seq::<Cell>::empty());
                            lemma_text_rows_push(pending, new_rows@.last());
                            assert(new_rows@ =~= pending.push(new_rows@.last()));
                            if reflow {
                                assert(text_rows(new_rows@) + text_of(buffered) =~= target);
                            }
                        }
                        break;
                    } else {
                        // Remove the leading spacer from the end of the wrapped row.
                        let ghost w0 = wrapped@;
                        wrapped[len - 2].wrapline = true;
                        let ghost w1 = wrapped@;
                        wrapped.truncate(len - 1);
                        proof {
                            lemma_text_update(w0, len - 2, w1[len - 2]);
                            assert(w1 =~= w0.update(len - 2, w1[len - 2]));
                            lemma_text_drop_hidden(w1);
                            assert(wrapped@ =~= w1.drop_last());
                        }
                    }
                }

                let mark = row.mark;
                // Set line as wrapped if cells got removed.
                let ghost r0 = row.cells@;
                set_last_wrapline(&mut row.cells, true);
                proof {
                    if r0.len() > 0 {
                        lemma_text_update(r0, r0.len() - 1, row.cells@[r0.len() - 1]);
                    }
                }
                let ghost pending = new_rows@;
                new_rows.push(row);
                proof {
                    origin = pushed_origin(origin, pending, new_rows@, before.len() as int, orig, j as int);
                    lemma_text_rows_push(pending, new_rows@.last());
                    assert(new_rows@ =~= pending.push(new_rows@.last()));
                    if reflow {
                        assert(text_rows(new_rows@) + text(wrapped@) =~= target);
                    }
                }

                if ends_wrapped(&wrapped) && i >= 1 && wrapped.len() < columns {
                    // Make sure previous wrap flag doesn't linger around.
                    let ghost w0 = wrapped@;
                    set_last_wrapline(&mut wrapped, false);
                    proof {
                        lemma_text_update(w0, w0.len() - 1, wrapped@[w0.len() - 1]);
                    }

                    // Add removed cells to start of next row.
                    buffered = Some(wrapped);
                    break;
                } else {
                    // Reflow cursor if a line below it is deleted.
                    let cursor_buffer_line = self.cursor_buffer_line();
                    if (i == cursor_buffer_line && self.cursor.point.column.0 < columns) || i
                        < cursor_buffer_line {
                        let line = self.cursor.point.line.0;
                        self.cursor.point.line = Line(if line >= 1 { line - 1 } else { 0 });
                    }

                    // Reflow the cursor if it is on this line beyond the width.
                    if i == cursor_buffer_line && self.cursor.point.column.0 >= columns {
                        // Since only a single new line is created, we subtract only `columns`
                        // from the cursor instead of reflowing it completely.
                        proof {
                            lemma_one_more_width(widths, columns as int);
                            widths = widths + 1;
                        }
                        self.cursor.point.column = Column(self.cursor.point.column.0 - columns);
                    }

                    // Make sure new row is at least as long as new width.
                    let ghost w0 = wrapped@;
                    pad_cells(&mut wrapped, columns);
                    row = Row { cells: wrapped, mark: continuation_of(mark) };
                    proof {
                        lemma_text_padded(w0, row.cells@);
                        if plain {
                            assert forall|c: int| 0 <= c < row.cells@.len() implies plain_cell(
                                #[trigger] row.cells@[c],
                            ) by {
                                if c < w0.len() {
                                    assert(row.cells@[c] == w0[c]);
                                }
                            }
                        }
                    }

                    if i < self.display_offset {
                        // Since we added a new line, rotate up the viewport.
                        self.display_offset = self.display_offset.saturating_add(1);
                    }
                }
            }
            proof {
                if !reflow {
                    assert(new_rows@.len() == j);
                    assert(buffered is None);
                    assert(self.cursor == old(self).cursor);
                    assert(self.display_offset == old(self).display_offset);
                    lemma_cut_rows_extend(before, new_rows@, orig, j as int, columns as int);
                }
            }
        }

        // Keep at most the scrollback limit above the screen.
        let limit = self.max_history + lines;
        let ghost full = marks_of(new_rows@);
        let ghost all_rows = new_rows@;
        proof {
            assert(orig.take(total as int) =~= orig);
        }
        proof {
            assert(marks_of(orig).take(total as int) =~= marks_of(orig));
        }
        if new_rows.len() > limit {
            let drop = new_rows.len() - limit;
            new_rows = new_rows.split_off(drop);
        }
        let ghost kept = new_rows@;
        fit_rows(&mut new_rows, columns);
        self.rows = new_rows;
        proof {
            if reflow {
                let dropped = all_rows.take(all_rows.len() - kept.len());
                assert(all_rows =~= dropped + kept);
                lemma_text_rows_append(dropped, kept);
                assert forall|k: int| 0 <= k < kept.len() implies #[trigger] text(
                    self.rows@[k].cells@,
                ) == text(kept[k].cells@) by {
                    assert(kept[k] == all_rows[all_rows.len() - kept.len() + k]);
                    let c = kept[k].cells@;
                    assert(c.len() <= columns);
                    lemma_text_padded(c, self.rows@[k].cells@);
                }
                lemma_text_rows_same(self.rows@, kept);
                assert(text_rows(dropped) + text_rows(self.rows@) == text_rows(old(self).rows@));
            }
            assert(marks_of(self.rows@) =~= full.subrange(
                full.len() - self.rows@.len(),
                full.len() as int,
            ));
            assert(split_marks(full, marks_of(orig), origin));
        }
        proof {
            if !reflow {
                assert forall|k: int| 0 <= k < orig.len() implies #[trigger] self.rows@[k].cells@
                    == fitted_cells(orig[k].cells@, columns as nat) by {
                    assert(old(self).rows@[k].cells@.len() == old_columns);
                    assert(kept[k].cells@ == orig[k].cells@.subrange(0, columns as int));
                }
            }
        }

        // Reflow the primary cursor, or clamp it if reflow is disabled.
        let last_column = columns - 1;
        let point = self.cursor.point;
        if !reflow {
            if point.column.0 > last_column {
                self.cursor.point.column = Column(last_column);
            }
        } else if point.column.0 == columns && !self.rows[self.rows.len() - lines
            + point.line.0 as usize].cells[last_column].wrapline {
            self.cursor.input_needs_wrap = true;
            self.cursor.point.column = Column(last_column);
        } else if point.column.0 > last_column {
            self.cursor.point.column = Column(last_column);
        }

        proof {
            if plain {
                lemma_column_of_offset(point.column.0 as int, widths, columns as int);
            }
        }

        // The viewport cannot start above the scrollback.
        let history = self.rows.len() - lines;
        if self.display_offset > history {
            self.display_offset = history;
        }
    }
}


/// `new` is `old` at another width without reflow: every row is cut off or padded with blank
/// cells and keeps its mark, and the cursor keeps its row, clamped to the last column.
pub open spec fn columns_fitted(new: Grid, old: Grid) -> bool {
    &&& new.rows@.len() == old.rows@.len()
    &&& forall|k: int|
        0 <= k < old.rows@.len() ==> #[trigger] new.rows@[k].cells@ == fitted_cells(
            old.rows@[k].cells@,
            new.columns as nat,
        ) && new.rows@[k].mark == old.rows@[k].mark
    &&& new.cursor.point.line == old.cursor.point.line
    &&& new.cursor.point.column.0 == min_int(
        old.cursor.point.column.0 as int,
        new.columns - 1,
    )
    &&& new.cursor.input_needs_wrap == old.cursor.input_needs_wrap
    &&& new.display_offset == old.display_offset
}

/// Move a cursor back by `cells` cells, wrapping to the end of the previous row, on a grid
/// `columns` wide; above the screen it stops at the top left.
fn cursor_back(point: Point, cells: usize, columns: usize) -> (r: Point)
    requires
        cells <= columns <= MAX_LINES,
        point.column.0 < columns,
        0 <= point.line.0,
    ensures
        r.column.0 < columns,
        0 <= r.line.0 <= point.line.0,
        point.line.0 - r.line.0 <= 1,
        r == if cells > point.column.0 {
            if point.line.0 == 0 {
                (Point { line: Line(0), column: Column(0) })
            } else {
                (Point {
                    line: Line((point.line.0 - 1) as i32),
                    column: Column((columns + point.column.0 - cells) as usize),
                })
            }
        } else {
            (Point { line: point.line, column: Column((point.column.0 - cells) as usize) })
        },
{
    // Lines moved up: one when the cells reach before the start of the row.
    let up = cells > point.column.0;
    let column = if cells == columns {
        point.column.0
    } else if point.column.0 >= cells {
        point.column.0 - cells
    } else {
        columns + point.column.0 - cells
    };
    if up && point.line.0 == 0 {
        Point { line: Line(0), column: Column(0) }
    } else if up {
        Point { line: Line(point.line.0 - 1), column: Column(column) }
    } else {
        Point { line: point.line, column: Column(column) }
    }
}

impl Grid {
    /// Grow the rows to `columns`; with `reflow`, a wrapped row pulls cells up from the row it
    /// wraps into, which goes away when it has nothing left.
    #[verifier::rlimit(100)]
    #[verifier::spinoff_prover]
    fn grow_columns(&mut self, reflow: bool, columns: usize)
        requires
            old(self).wf(),
            old(self).columns < columns <= MAX_LINES,
        ensures
            final(self).wf(),
            final(self).columns == columns,
            final(self).screen_lines == old(self).screen_lines,
            final(self).max_history == old(self).max_history,
            !reflow ==> columns_fitted(*final(self), *old(self)),
            reflow ==> widened(*final(self), *old(self)),
    {
        let lines = self.screen_lines;
        let old_columns = self.columns;
        self.columns = columns;

        let mut cursor_line_delta: usize = 0;

        // Remove the linewrap special case, by moving the cursor outside of the grid.
        if self.cursor.input_needs_wrap && reflow {
            self.cursor.input_needs_wrap = false;
            self.cursor.point.column = Column(self.cursor.point.column.0 + 1);
        }

        let mut rows = take_rows(&mut self.rows);
        let total = rows.len();
        let mut merged: Vec<Row> = Vec::new();
        let ghost orig = rows@;
        let ghost mut kept: Seq<int> = Seq::empty();
        let ghost wraps = rows_wrap_at_end(orig);

        let mut j: usize = 0;
        while j < total
            invariant
                orig == old(self).rows@,
                wraps == rows_wrap_at_end(orig),
                wraps ==> forall|a: int|
                    0 <= a < merged@.len() ==> wraps_only_at_end(#[trigger] merged@[a].cells@),
                wraps && merged@.len() > 0 && ends_wrapped_cells(merged@[merged@.len() - 1].cells@)
                    ==> j >= 1 && ends_wrapped_cells(orig[j - 1].cells@),
                wraps ==> covers(kept, orig, j as int),
                self.cursor.point.line.0 >= old(self).cursor.point.line.0,
                kept.len() == merged@.len(),
                merged_marks(marks_of(merged@), marks_of(orig), kept),
                forall|a: int| 0 <= a < kept.len() ==> #[trigger] kept[a] < j,
                orig.len() == total,
                forall|k: int| j <= k < total ==> #[trigger] rows@[k] == orig[k],
                !reflow ==> {
                    &&& merged@ == orig.subrange(0, j as int)
                    &&& cursor_line_delta == 0
                    &&& self.cursor == old(self).cursor
                    &&& self.display_offset == old(self).display_offset
                },
                j <= total == rows@.len(),
                lines <= total,
                total <= lines + self.max_history,
                lines == self.screen_lines,
                1 <= lines <= MAX_LINES,
                self.max_history <= MAX_LINES,
                old_columns < columns <= MAX_LINES,
                1 <= old_columns,
                self.columns == columns,
                self.max_history == old(self).max_history,
                0 <= self.cursor.point.line.0 < lines,
                self.cursor.point.column.0 < columns,
                merged@.len() <= j,
                cursor_line_delta <= j,
                forall|k: int| j <= k < total ==> (#[trigger] rows@[k]).cells@.len() == old_columns,
            decreases total - j,
        {
            let i = total - 1 - j;
            let mut row = take_row(&mut rows, j);
            j = j + 1;

            // Check if reflowing should be performed.
            let n = merged.len();
            let should_reflow = if reflow && n > 0 {
                let last_len = merged[n - 1].cells.len();
                last_len > 0 && last_len < columns && merged[n - 1].cells[last_len - 1].wrapline
            } else {
                false
            };
            proof {
                if should_reflow && wraps {
                    let last = merged@[merged@.len() - 1].cells@;
                    assert(last[last.len() - 1] == merged[n - 1].cells@[last.len() - 1]);
                    assert(continues_wrapped(orig, j - 1));
                }
            }
            let ghost source = orig[j - 1].cells@;
            if !should_reflow {
                merged.push(row);
                proof {
                    if wraps {
                        lemma_covers_push(kept, orig, j - 1, j - 1);
                        assert(wraps_only_at_end(orig[j - 1].cells@));
                    }
                    kept = kept.push(j - 1);
                    if wraps {
                        lemma_covers_next(kept, orig, j - 1);
                    }
                    assert(marks_of(merged@) =~= marks_of(merged@.drop_last()).push(orig[j - 1].mark));
                }
                assert(!reflow ==> merged@ =~= orig.subrange(0, j as int));
                continue;
            }
            let ghost full = merged@;
            let mut last_row = match merged.pop() {
                Some(last_row) => last_row,
                None => Row { cells: Vec::new(), mark: crate::grid::RowMark::Unmarked },
            };
            let ghost last_kept = kept.last();
            let ghost kept_before = kept;
            proof {
                assert(full.len() > 0);
                assert(last_row == full.last());
                assert(marks_of(full)[full.len() - 1] == last_row.mark);
                kept = kept.drop_last();
                assert(marks_of(merged@) =~= marks_of(full).drop_last());
            }
            let ghost popped = last_row.cells@;

            // Remove wrap flag before appending additional cells.
            set_last_wrapline(&mut last_row.cells, false);

            // Remove leading spacers when reflowing wide char to the previous line.
            let mut last_len = last_row.cells.len();
            if last_len >= 1 && last_row.cells[last_len - 1].leading_wide_char_spacer {
                last_row.cells.truncate(last_len - 1);
                last_len = last_len - 1;
            }
            let ghost head = last_row.cells@;
            proof {
                if wraps {
                    assert(wraps_only_at_end(full[full.len() - 1].cells@));
                    assert forall|k: int| 0 <= k < head.len() implies !(#[trigger] head[k]).wrapline by {
                        assert(head[k].wrapline == (if k == popped.len() - 1 {
                            false
                        } else {
                            popped[k].wrapline
                        }));
                    }
                }
            }

            // Don't try to pull more cells from the next line than available.
            let mut num_wrapped = columns - last_len;
            let len = if row.cells.len() < num_wrapped {
                row.cells.len()
            } else {
                num_wrapped
            };

            // Insert leading spacer when there's not enough room for reflowing wide char.
            let ghost cut: int = if row.cells@[len - 1].wide_char {
                len - 1
            } else {
                len as int
            };
            let mut cells = if row.cells[len - 1].wide_char {
                num_wrapped = num_wrapped - 1;
                let mut front = row.cells.split_off(len - 1);
                std::mem::swap(&mut front, &mut row.cells);
                front.push(leading_spacer());
                front
            } else {
                let mut front = row.cells.split_off(len);
                std::mem::swap(&mut front, &mut row.cells);
                front
            };
            let ghost front = cells@;
            proof {
                assert(row.cells@ == source.subrange(cut, source.len() as int));
                if wraps {
                    assert(wraps_only_at_end(source));
                    if cut == len {
                        assert(front =~= source.take(len as int));
                    } else {
                        assert(front.take(len - 1) =~= source.take(len - 1));
                    }
                    lemma_pulled_cells(head, front, source, len as int);
                    let rest = row.cells@;
                    assert forall|k: int| 0 <= k < rest.len() - 1 implies !(#[trigger] rest[k]).wrapline
                        by {
                        assert(rest[k] == source[k + cut]);
                    }
                    if ends_wrapped_cells(rest) {
                        assert(rest[rest.len() - 1] == source[source.len() - 1]);
                    }
                }
            }

            // Add removed cells to previous row and reflow content.
            last_row.cells.append(&mut cells);
            proof {
                assert(last_row.cells@ == head + front);
            }

            let cursor_buffer_line = self.cursor_buffer_line();
            let clear = row.is_clear();
            if i == cursor_buffer_line {
                // Resize cursor's line and reflow the cursor if necessary.
                let mut target = cursor_back(self.cursor.point, num_wrapped, columns);

                // Clamp to the last column, if no content was reflown with the cursor.
                if target.column.0 == 0 && clear {
                    self.cursor.input_needs_wrap = true;
                    target = cursor_back(target, 1, columns);
                }
                self.cursor.point.column = target.column;

                // Get required cursor line changes. Since `num_wrapped` is smaller than `columns`
                // this will always be either `0` or `1`.
                let line_delta = (self.cursor.point.line.0 - target.line.0) as usize;

                if line_delta != 0 && clear {
                    merged.push(last_row);
                    proof {
                        kept = kept.push(last_kept);
                        assert(marks_of(merged@) =~= marks_of(full));
                        assert(kept =~= kept_before);
                        if wraps {
                            lemma_covers_next(kept, orig, j - 1);
                            assert forall|a: int| 0 <= a < merged@.len() implies wraps_only_at_end(
                                #[trigger] merged@[a].cells@,
                            ) by {
                                if a < merged@.len() - 1 {
                                    assert(merged@[a] == full[a]);
                                }
                            }
                        }
                    }
                    continue;
                }

                cursor_line_delta = cursor_line_delta + line_delta;
            } else if clear {
                if i < self.display_offset {
                    // Since we removed a line, rotate down the viewport.
                    self.display_offset = self.display_offset - 1;
                }

                // Rotate cursor down if content below them was pulled from history.
                if i < cursor_buffer_line {
                    self.cursor.point.line = Line(self.cursor.point.line.0 + 1);
                }

                // Don't push line into the new buffer.
                merged.push(last_row);
                proof {
                    kept = kept.push(last_kept);
                    assert(marks_of(merged@) =~= marks_of(full));
                    assert(kept =~= kept_before);
                    if wraps {
                        lemma_covers_next(kept, orig, j - 1);
                        assert forall|a: int| 0 <= a < merged@.len() implies wraps_only_at_end(
                            #[trigger] merged@[a].cells@,
                        ) by {
                            if a < merged@.len() - 1 {
                                assert(merged@[a] == full[a]);
                            }
                        }
                    }
                }
                continue;
            }

            // Set wrap flag if next line still has cells.
            let ghost joined = last_row.cells@;
            set_last_wrapline(&mut last_row.cells, true);
            proof {
                if wraps {
                    let c = last_row.cells@;
                    assert forall|k: int| 0 <= k < c.len() - 1 implies !(#[trigger] c[k]).wrapline by {
                        assert(c[k] == joined[k]);
                    }
                }
            }

            merged.push(last_row);
            proof {
                kept = kept.push(last_kept);
                assert(marks_of(merged@) =~= marks_of(full));
                assert(kept =~= kept_before);
            }
            merged.push(row);
            proof {
                if wraps {
                    lemma_covers_push(kept, orig, j - 1, j - 1);
                }
                kept = kept.push(j - 1);
                if wraps {
                    lemma_covers_next(kept, orig, j - 1);
                    assert forall|a: int| 0 <= a < merged@.len() implies wraps_only_at_end(
                        #[trigger] merged@[a].cells@,
                    ) by {
                        if a < merged@.len() - 2 {
                            assert(merged@[a] == full[a]);
                        }
                    }
                }
                assert(marks_of(merged@) =~= marks_of(full).push(orig[j - 1].mark));
            }
        }

        let ghost all = kept;
        // Make sure we have at least the viewport filled.
        if merged.len() < lines {
            let delta = lines - merged.len();
            let line = self.cursor.point.line.0 as usize;
            self.cursor.point.line = Line(if line >= delta { (line - delta) as i32 } else { 0 });
            while merged.len() < lines
                invariant
                    merged@.len() <= lines,
                    merged_marks(marks_of(merged@), marks_of(orig), kept),
                decreases lines - merged@.len(),
            {
                let ghost prev = merged@;
                merged.push(Row::new(columns));
                assert(marks_of(merged@) =~= marks_of(prev).push(RowMark::Unmarked));
                assert forall|a: int| kept.len() <= a < marks_of(merged@).len() implies
                    #[trigger] marks_of(merged@)[a] == RowMark::Unmarked by {
                    if a < prev.len() {
                        assert(marks_of(merged@)[a] == marks_of(prev)[a]);
                    }
                }
            }
        }

        // Pull content down to put cursor in correct position, or move cursor up if there's no
        // more lines to delete below the cursor.
        if cursor_line_delta != 0 {
            let cursor_buffer_line = self.cursor_buffer_line();
            let above = merged.len() - lines;
            let available = if cursor_buffer_line < above {
                cursor_buffer_line
            } else {
                above
            };
            let overflow = cursor_line_delta.saturating_sub(available);
            let ghost untruncated = merged@;
            merged.truncate(merged.len() + overflow - cursor_line_delta);
            proof {
                assert(marks_of(merged@) =~= marks_of(untruncated).take(merged@.len() as int));
                if kept.len() > merged@.len() {
                    kept = kept.take(merged@.len() as int);
                }
                assert(untruncated.len() - merged@.len() <= old(self).screen_lines - 1
                    - old(self).cursor.point.line.0);
            }
            let line = self.cursor.point.line.0 as usize;
            self.cursor.point.line = Line(if line >= overflow { (line - overflow) as i32 } else { 0 });
        }

        let ghost unfitted = merged@;
        fit_rows(&mut merged, columns);
        self.rows = merged;
        proof {
            assert(marks_of(self.rows@) =~= marks_of(unfitted));
            assert(merged_marks(marks_of(self.rows@), marks_of(orig), kept));
            if reflow && wraps {
                assert(all.take(kept.len() as int) =~= kept);
                assert(keeps_unwrapped(kept, orig, old(self).screen_lines - 1
                    - old(self).cursor.point.line.0));
            }
        }

        // Clamp display offset in case lines above it got merged.
        let history = self.rows.len() - lines;
        if self.display_offset > history {
            self.display_offset = history;
        }
    }
}


/// `new` is `old` with lines added to its screen: scrollback rows come down onto the screen
/// first, then blank rows enter at its bottom, and the cursor stays with its row.
pub open spec fn lines_grown(new: Grid, old: Grid) -> bool {
    let pulled = min_int(old.history(), new.screen_lines - old.screen_lines);
    &&& new.history() == old.history() - pulled
    &&& forall|l: int| old.has_line(l) ==> #[trigger] new.row(l + pulled) == old.row(l)
    &&& forall|l: int|
        new.has_line(l) && l > old.bottommost() + pulled ==> blank_row(
            #[trigger] new.row(l),
            old.columns as nat,
        )
    &&& new.cursor.point.line.0 == old.cursor.point.line.0 + pulled
    &&& new.cursor.point.column == old.cursor.point.column
    &&& new.cursor.input_needs_wrap == old.cursor.input_needs_wrap
}

/// `new` is `old` with lines removed from the bottom of its screen, after its top rows scrolled
/// into the scrollback as far as needed to keep the cursor row on the screen.
pub open spec fn lines_shrunk(new: Grid, old: Grid) -> bool {
    let line = old.cursor.point.line.0 as int;
    let shift = if line + 1 > new.screen_lines {
        line + 1 - new.screen_lines
    } else {
        0
    };
    &&& new.history() == if old.history() + shift <= old.max_history {
        old.history() + shift
    } else {
        old.max_history as int
    }
    &&& forall|l: int| new.has_line(l) ==> #[trigger] new.row(l) == old.row(l + shift)
    &&& new.cursor.point.line.0 == line - shift
    &&& new.cursor.point.column == old.cursor.point.column
    &&& new.cursor.input_needs_wrap == old.cursor.input_needs_wrap
}

impl Grid {
    /// Add lines to the screen: scrollback rows come down onto it first, then blank rows are
    /// added at its bottom.
    fn grow_lines(&mut self, target: usize)
        requires
            old(self).wf(),
            old(self).screen_lines < target <= MAX_LINES,
        ensures
            final(self).wf(),
            final(self).screen_lines == target,
            final(self).columns == old(self).columns,
            final(self).max_history == old(self).max_history,
            lines_grown(*final(self), *old(self)),
    {
        let lines_added = target - self.screen_lines;
        let history = self.history_size();
        let from_history = if history < lines_added {
            history
        } else {
            lines_added
        };

        // Blank rows at the bottom for every line that could not come from the scrollback.
        let mut k: usize = from_history;
        while k < lines_added
            invariant
                from_history <= k <= lines_added,
                self.rows@.len() == old(self).rows@.len() + (k - from_history),
                self.rows_wf(),
                1 <= self.columns <= MAX_LINES,
                self.columns == old(self).columns,
                self.screen_lines == old(self).screen_lines,
                self.max_history == old(self).max_history,
                self.cursor == old(self).cursor,
                self.display_offset == old(self).display_offset,
                forall|j: int| 0 <= j < old(self).rows@.len() ==> #[trigger] self.rows@[j] == old(self).rows@[j],
                forall|j: int|
                    old(self).rows@.len() <= j < self.rows@.len() ==> blank_row(
                        #[trigger] self.rows@[j],
                        self.columns as nat,
                    ),
            decreases lines_added - k,
        {
            self.rows.push(Row::new(self.columns));
            k = k + 1;
        }
        self.screen_lines = target;

        // Move cursor down for every line pulled from history.
        self.cursor.point.line = Line(self.cursor.point.line.0 + from_history as i32);

        self.display_offset = self.display_offset.saturating_sub(lines_added);
        let history = self.rows.len() - target;
        if self.display_offset > history {
            self.display_offset = history;
        }
    }

    /// Remove lines from the bottom of the screen, after scrolling its top rows into the
    /// scrollback to keep the cursor on the screen.
    fn shrink_lines(&mut self, target: usize)
        requires
            old(self).wf(),
            1 <= target < old(self).screen_lines,
        ensures
            final(self).wf(),
            final(self).screen_lines == target,
            final(self).columns == old(self).columns,
            final(self).max_history == old(self).max_history,
            lines_shrunk(*final(self), *old(self)),
    {
        // Scroll up to keep content inside the window.
        let cursor_line = self.cursor.point.line.0 as usize;
        let ghost shift: int = if cursor_line + 1 > target {
            cursor_line + 1 - target
        } else {
            0
        };
        if cursor_line + 1 > target {
            let required_scrolling = cursor_line + 1 - target;
            self.scroll_up(required_scrolling);
            let ghost after_scroll = *self;

            // Clamp cursors to the new viewport size.
            if self.cursor.point.line.0 > (target - 1) as i32 {
                self.cursor.point.line = Line((target - 1) as i32);
            }
            assert forall|l: int| self.topmost() <= l < target implies #[trigger] self.row(l)
                == old(self).row(l + shift) by {
                assert(after_scroll.has_line(l));
                assert(l + required_scrolling <= old(self).bottommost());
                assert(after_scroll.row(l) == old(self).row(l + shift));
            }
        }
        let ghost scrolled = *self;

        // Drop the rows below the new bottom of the screen.
        let removed = self.screen_lines - target;
        let keep = self.rows.len() - removed;
        self.rows.truncate(keep);
        assert forall|l: int| -(keep - target) <= l < target implies #[trigger] self.rows@[l + (keep
            - target)] == scrolled.row(l) by {}
        self.screen_lines = target;
        let history = self.rows.len() - target;
        if self.display_offset > history {
            self.display_offset = history;
        }
    }

    /// Resize the grid to `columns` by `lines`; with `reflow`, wrapped rows reflow to the new
    /// width.
    pub fn resize(&mut self, reflow: bool, lines: usize, columns: usize)
        requires
            old(self).wf(),
            old(self).columns >= 2,
            2 <= columns <= MAX_LINES,
            1 <= lines <= MAX_LINES,
        ensures
            final(self).wf(),
            final(self).screen_lines == lines,
            final(self).columns == columns,
            final(self).max_history == old(self).max_history,
            old(self).columns == columns ==> {
                &&& lines > old(self).screen_lines ==> lines_grown(*final(self), *old(self))
                &&& lines < old(self).screen_lines ==> lines_shrunk(*final(self), *old(self))
                &&& lines == old(self).screen_lines ==> *final(self) == *old(self)
            },
            !reflow && lines == old(self).screen_lines && columns != old(self).columns
                ==> columns_fitted(*final(self), *old(self)),
            grid_resized(*final(self), *old(self), reflow, lines, columns),
    {
        if self.screen_lines < lines {
            self.grow_lines(lines);
        } else if self.screen_lines > lines {
            self.shrink_lines(lines);
        }
        let ghost mid = *self;
        assert(lines_resized(mid, *old(self), lines));

        if self.columns < columns {
            self.grow_columns(reflow, columns);
        } else if self.columns > columns {
            self.shrink_columns(reflow, columns);
        }
    }
}


/// `new` is `old` with `lines` lines on its screen and the width unchanged.
pub open spec fn lines_resized(new: Grid, old: Grid, lines: usize) -> bool {
    &&& new.screen_lines == lines
    &&& new.columns == old.columns
    &&& new.max_history == old.max_history
    &&& lines > old.screen_lines ==> lines_grown(new, old)
    &&& lines < old.screen_lines ==> lines_shrunk(new, old)
    &&& lines == old.screen_lines ==> new == old
}

/// `new` is `old` at `columns` columns: cut off or padded without reflow; with reflow, split
/// rows continue with the continuation of their mark when the width shrinks, and when it grows
/// rows keep their marks or go where merged into the row above they continue.
pub open spec fn columns_resized(new: Grid, old: Grid, reflow: bool, columns: usize) -> bool {
    &&& new.columns == columns
    &&& new.screen_lines == old.screen_lines
    &&& new.max_history == old.max_history
    &&& columns == old.columns ==> new == old
    &&& columns != old.columns && !reflow ==> columns_fitted(new, old)
    &&& columns < old.columns && reflow ==> split_reflowed(
        marks_of(new.rows@),
        marks_of(old.rows@),
        old.max_history + old.screen_lines,
    )
    &&& columns < old.columns && reflow ==> text_kept(new, old)
    &&& columns < old.columns && reflow && plain_rows(old.rows@) ==> {
        &&& column_follows(
            new.cursor.point.column.0 as int,
            cursor_offset(old.cursor),
            columns as int,
        )
        &&& new.cursor.point.line.0 <= old.cursor.point.line.0
    }
    &&& columns > old.columns && reflow ==> widened(new, old)
}

/// What a resize to `columns` columns makes of the terminal before the grids are resized: on a
/// width change the prompt is cleared for the shell's repaint, else nothing changes.
pub open spec fn cleared_for_width(cleared: Term, old: Term, columns: usize) -> bool {
    if old.grid.columns != columns {
        Term::redraw_cleared(cleared, old, columns)
    } else {
        cleared == old
    }
}

/// A reflow to a smaller width keeps the text of the grid, character for character and in
/// order: cells cut off a row move on to the next rows. Only the oldest text can go, with the
/// rows pushed beyond the scrollback limit, and none does while the grid stays below it.
pub proof fn lemma_narrowing_keeps_text(new: Grid, old: Grid, columns: usize)
    requires
        columns_resized(new, old, true, columns),
        columns < old.columns,
    ensures
        exists|lost: Seq<char>| lost + text_rows(new.rows@) == text_rows(old.rows@),
        new.rows@.len() < old.max_history + old.screen_lines ==> text_rows(new.rows@)
            == text_rows(old.rows@),
{
    let dropped = choose|dropped: Seq<Row>|
        #[trigger] text_rows(dropped) + text_rows(new.rows@) == text_rows(old.rows@) && (
        new.rows@.len() < old.max_history + old.screen_lines ==> dropped.len() == 0);
    assert(text_rows(dropped) + text_rows(new.rows@) == text_rows(old.rows@));
    if new.rows@.len() < old.max_history + old.screen_lines {
        assert(text_rows(dropped) == Seq::<char>::empty());
        assert(Seq::<char>::empty() + text_rows(new.rows@) =~= text_rows(new.rows@));
    }
}

/// A reflow to a smaller width carries the cursor with the text it stands in. Where no row
/// wraps into the next and none holds a wide character, the cursor, `offset` cells into its
/// row (one further when the next character starts a new row), lands in the column that this
/// offset takes in the row piece holding it: the offset modulo the new width. At an offset
/// that is a whole multiple of the new width it may stay in the last column of the piece
/// before. The cursor never moves down the screen.
pub proof fn lemma_narrowing_carries_cursor(new: Grid, old: Grid, columns: usize)
    requires
        columns_resized(new, old, true, columns),
        columns < old.columns,
        plain_rows(old.rows@),
    ensures
        ({
            let offset = old.cursor.point.column.0 + if old.cursor.input_needs_wrap {
                1int
            } else {
                0int
            };
            ||| new.cursor.point.column.0 == offset % (columns as int)
            ||| offset >= columns && offset % (columns as int) == 0 && new.cursor.point.column.0
                == columns - 1
        }),
        new.cursor.point.line.0 <= old.cursor.point.line.0,
{
}

/// `new` is `old` resized to `lines` lines, then to `columns` columns.
pub open spec fn grid_resized(new: Grid, old: Grid, reflow: bool, lines: usize, columns: usize) -> bool {
    exists|mid: Grid| #[trigger] lines_resized(mid, old, lines) && columns_resized(new, mid, reflow, columns)
}

impl Term {
    /// Resize the terminal. On a width change the prompt is first cleared for the shell to
    /// repaint it; the primary screen reflows, the alternate screen does not.
    pub fn resize(&mut self, columns: usize, screen_lines: usize)
        requires
            old(self).wf(),
            2 <= columns <= MAX_LINES,
            1 <= screen_lines <= MAX_LINES,
        ensures
            final(self).wf(),
            final(self).grid.columns == columns,
            final(self).grid.screen_lines == screen_lines,
            final(self).prompt == old(self).prompt,
            final(self).alt_screen == old(self).alt_screen,
            final(self).vi_mode == old(self).vi_mode,
            old(self).grid.columns == columns && old(self).grid.screen_lines == screen_lines
                ==> *final(self) == *old(self),
            old(self).grid.columns == columns && screen_lines > old(self).grid.screen_lines
                ==> lines_grown(final(self).grid, old(self).grid),
            old(self).grid.columns == columns && screen_lines < old(self).grid.screen_lines
                ==> lines_shrunk(final(self).grid, old(self).grid),
            old(self).grid.columns != columns && screen_lines == old(self).grid.screen_lines
                ==> if old(self).alt_screen {
                columns_fitted(final(self).grid, old(self).grid)
            } else {
                columns_fitted(final(self).inactive_grid, old(self).inactive_grid)
            },
            // A width change first clears the prompt for the shell's repaint, then the grid of
            // the primary screen reflows and that of the alternate screen is cut or padded.
            exists|cleared: Term|
                #[trigger] cleared_for_width(cleared, *old(self), columns) && grid_resized(
                    final(self).grid,
                    cleared.grid,
                    !old(self).alt_screen,
                    screen_lines,
                    columns,
                ),
            grid_resized(
                final(self).inactive_grid,
                old(self).inactive_grid,
                old(self).alt_screen,
                screen_lines,
                columns,
            ),
    {
        let old_columns = self.grid.columns;
        let old_lines = self.grid.screen_lines;
        if old_columns == columns && old_lines == screen_lines {
            proof {
                let g = self.grid;
                assert(lines_resized(g, g, screen_lines) && columns_resized(g, g, !self.alt_screen, columns));
                let h = self.inactive_grid;
                assert(lines_resized(h, h, screen_lines) && columns_resized(h, h, self.alt_screen, columns));
                assert(cleared_for_width(*self, *self, columns));
            }
            return;
        }

        // Move vi mode cursor with the content.
        let history = self.grid.history_size() as i64;
        let mut delta: i64 = (screen_lines as i64) - (old_lines as i64);
        let room: i64 = (screen_lines as i64) - (self.grid.cursor.point.line.0 as i64) - 1;
        let min_delta: i64 = if room < 0 {
            room
        } else {
            0
        };
        if delta < min_delta {
            delta = min_delta;
        }
        if delta > history {
            delta = history;
        }
        let vi_line = self.vi_mode_cursor.point.line.0 as i64 + delta;

        // Let the shell repaint its prompt on empty rows at the new width.
        if old_columns != columns {
            self.clear_prompt_for_redraw(columns);
        }
        let ghost cleared = *self;

        let is_alt = self.alt_screen;
        self.grid.resize(!is_alt, screen_lines, columns);
        self.inactive_grid.resize(is_alt, screen_lines, columns);
        assert(cleared_for_width(cleared, *old(self), columns));

        // Clamp vi cursor to viewport.
        let viewport_top: i64 = 0 - (self.grid.display_offset as i64);
        let viewport_bottom: i64 = viewport_top + (screen_lines as i64) - 1;
        let line = if vi_line < viewport_top {
            viewport_top
        } else if vi_line > viewport_bottom {
            viewport_bottom
        } else {
            vi_line
        };
        let column = if self.vi_mode_cursor.point.column.0 >= columns {
            columns - 1
        } else {
            self.vi_mode_cursor.point.column.0
        };
        self.vi_mode_cursor.point = Point { line: Line(line as i32), column: Column(column) };
        self.fully_damaged = true;
    }
}

} // verus!
