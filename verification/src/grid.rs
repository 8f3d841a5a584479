//! The grid of rows and cells, with the scrollback above the screen.

use vstd::prelude::*;

use crate::index::{Column, Line, Point};

verus! {

/// The largest number of screen lines, and of scrollback lines, that a grid holds.
///
/// Lines are signed 32-bit numbers, so the scrollback and the screen together must fit in them.
pub const MAX_LINES: usize = 0x3fff_ffff;

/// OSC 133 marker of a row.
#[derive(Debug, Clone, Copy, PartialEq, Eq, Structural)]
pub enum RowMark {
    /// No marker was placed on this row.
    Unmarked,
    /// The row starts a primary prompt.
    Prompt,
    /// The row starts a secondary prompt (`k=s`).
    PromptSecondary,
    /// The row continues a prompt or its input, after a line feed or a wrap.
    PromptContinuation,
    /// Command output starts on this row.
    OutputStart,
}

/// Whether a mark belongs to a prompt: a primary, secondary or continued prompt row.
pub open spec fn is_prompt_mark(mark: RowMark) -> bool {
    mark == RowMark::Prompt || mark == RowMark::PromptSecondary
        || mark == RowMark::PromptContinuation
}

/// The mark that a row which continues a row with `mark` receives when a reflow splits it.
pub open spec fn continuation_mark(mark: RowMark) -> RowMark {
    if is_prompt_mark(mark) {
        RowMark::PromptContinuation
    } else {
        RowMark::Unmarked
    }
}

pub fn continuation_of(mark: RowMark) -> (r: RowMark)
    ensures
        r == continuation_mark(mark),
{
    match mark {
        RowMark::Prompt | RowMark::PromptSecondary | RowMark::PromptContinuation => {
            RowMark::PromptContinuation
        },
        _ => RowMark::Unmarked,
    }
}

/// One cell of the grid.
#[derive(Debug, Clone, Copy, PartialEq, Eq, Structural)]
pub struct Cell {
    /// The character in the cell.
    pub c: char,
    /// The row continues on the next row: set on the last cell of a wrapped row.
    pub wrapline: bool,
    /// The cell holds a character two columns wide.
    pub wide_char: bool,
    /// The cell is the second column of a wide character.
    pub wide_char_spacer: bool,
    /// The cell is left blank because a wide character did not fit at the end of the row.
    pub leading_wide_char_spacer: bool,
}

impl Cell {
    /// A cell holding nothing visible, with no flag that would keep it.
    pub open spec fn empty(&self) -> bool {
        self.c == ' ' && !self.wrapline && !self.wide_char_spacer && !self.leading_wide_char_spacer
    }

    pub open spec fn spec_blank() -> Cell {
        Cell {
            c: ' ',
            wrapline: false,
            wide_char: false,
            wide_char_spacer: false,
            leading_wide_char_spacer: false,
        }
    }

    /// A blank cell.
    pub fn blank() -> (cell: Cell)
        ensures
            cell == Cell::spec_blank(),
    {
        Cell {
            c: ' ',
            wrapline: false,
            wide_char: false,
            wide_char_spacer: false,
            leading_wide_char_spacer: false,
        }
    }

    /// Whether the cell holds nothing visible.
    pub fn is_empty(&self) -> (r: bool)
        ensures
            r == self.empty(),
    {
        self.c == ' ' && !self.wrapline && !self.wide_char_spacer && !self.leading_wide_char_spacer
    }
}

/// Whether every cell of a sequence is empty.
pub open spec fn all_empty(cells: Seq<Cell>) -> bool {
    forall|i: int| 0 <= i < cells.len() ==> #[trigger] cells[i].empty()
}

/// A sequence of `n` blank cells.
pub open spec fn blank_cells(n: nat) -> Seq<Cell> {
    Seq::new(n, |i: int| Cell::spec_blank())
}

/// A row of `n` blank cells without a mark.
pub open spec fn blank_row(row: Row, n: nat) -> bool {
    row.cells@ == blank_cells(n) && row.mark == RowMark::Unmarked
}

/// One row of the grid.
#[derive(Debug)]
pub struct Row {
    pub cells: Vec<Cell>,
    pub mark: RowMark,
}

impl Row {
    /// A row of `columns` blank cells without a mark.
    pub fn new(columns: usize) -> (row: Row)
        ensures
            row.cells@ == blank_cells(columns as nat),
            row.mark == RowMark::Unmarked,
    {
        let mut cells: Vec<Cell> = Vec::new();
        let mut i: usize = 0;
        while i < columns
            invariant
                i <= columns,
                cells@ == blank_cells(i as nat),
            decreases columns - i,
        {
            cells.push(Cell::blank());
            i = i + 1;
            proof {
                assert(cells@ =~= blank_cells(i as nat));
            }
        }
        Row { cells, mark: RowMark::Unmarked }
    }

    /// Whether every cell of the row is empty; the mark does not count.
    pub fn is_clear(&self) -> (r: bool)
        ensures
            r == all_empty(self.cells@),
    {
        let mut i: usize = 0;
        while i < self.cells.len()
            invariant
                i <= self.cells@.len(),
                forall|j: int| 0 <= j < i ==> #[trigger] self.cells@[j].empty(),
            decreases self.cells@.len() - i,
        {
            if !self.cells[i].is_empty() {
                return false;
            }
            i = i + 1;
        }
        true
    }

    /// Blank every cell and drop the mark, keeping the length.
    pub fn reset(&mut self)
        ensures
            final(self).cells@ == blank_cells(old(self).cells@.len()),
            final(self).mark == RowMark::Unmarked,
    {
        let n = self.cells.len();
        *self = Row::new(n);
    }
}

/// The terminal cursor.
#[derive(Debug, Clone, Copy, PartialEq, Eq, Structural)]
pub struct Cursor {
    pub point: Point,
    /// The last column was written: the next character starts a new row.
    pub input_needs_wrap: bool,
}

/// Screen and scrollback rows, from the topmost scrollback row down to the bottom of the screen.
#[derive(Debug)]
pub struct Grid {
    pub rows: Vec<Row>,
    pub columns: usize,
    pub screen_lines: usize,
    pub max_history: usize,
    pub cursor: Cursor,
    /// Number of scrollback lines shown above the screen.
    pub display_offset: usize,
}

impl Grid {
    /// Number of rows in the scrollback.
    pub open spec fn history(&self) -> int {
        self.rows@.len() - self.screen_lines
    }

    pub open spec fn topmost(&self) -> int {
        -self.history()
    }

    pub open spec fn bottommost(&self) -> int {
        self.screen_lines - 1
    }

    pub open spec fn has_line(&self, line: int) -> bool {
        self.topmost() <= line <= self.bottommost()
    }

    /// The row at a line.
    pub open spec fn row(&self, line: int) -> Row {
        self.rows@[line + self.history()]
    }

    pub open spec fn mark(&self, line: int) -> RowMark {
        self.row(line).mark
    }

    pub open spec fn clear_at(&self, line: int) -> bool {
        all_empty(self.row(line).cells@)
    }

    pub open spec fn rows_wf(&self) -> bool {
        forall|i: int| 0 <= i < self.rows@.len() ==> (#[trigger] self.rows@[i]).cells@.len()
            == self.columns
    }

    pub open spec fn wf(&self) -> bool {
        &&& 1 <= self.screen_lines <= MAX_LINES
        &&& 1 <= self.columns <= MAX_LINES
        &&& self.max_history <= MAX_LINES
        &&& self.screen_lines <= self.rows@.len() <= self.screen_lines + self.max_history
        &&& self.rows_wf()
        &&& 0 <= self.cursor.point.line.0 < self.screen_lines
        &&& self.cursor.point.column.0 < self.columns
        &&& self.display_offset <= self.history()
    }

    /// A grid of blank rows with an empty scrollback and the cursor at the top left.
    pub fn new(columns: usize, screen_lines: usize, max_history: usize) -> (grid: Grid)
        requires
            1 <= columns <= MAX_LINES,
            1 <= screen_lines <= MAX_LINES,
            max_history <= MAX_LINES,
        ensures
            grid.wf(),
            grid.columns == columns,
            grid.screen_lines == screen_lines,
            grid.max_history == max_history,
            grid.history() == 0,
            grid.cursor.point == (Point { line: Line(0), column: Column(0) }),
            !grid.cursor.input_needs_wrap,
            grid.display_offset == 0,
            forall|l: int| grid.has_line(l) ==> blank_row(#[trigger] grid.row(l), columns as nat),
    {
        let mut rows: Vec<Row> = Vec::new();
        let mut i: usize = 0;
        while i < screen_lines
            invariant
                i <= screen_lines,
                rows@.len() == i,
                forall|j: int| 0 <= j < i ==> blank_row(#[trigger] rows@[j], columns as nat),
            decreases screen_lines - i,
        {
            rows.push(Row::new(columns));
            i = i + 1;
        }
        Grid {
            rows,
            columns,
            screen_lines,
            max_history,
            cursor: Cursor {
                point: Point { line: Line(0), column: Column(0) },
                input_needs_wrap: false,
            },
            display_offset: 0,
        }
    }

    /// Number of rows in the scrollback.
    pub fn history_size(&self) -> (n: usize)
        requires
            self.wf(),
        ensures
            n == self.history(),
    {
        self.rows.len() - self.screen_lines
    }

    pub fn topmost_line(&self) -> (line: Line)
        requires
            self.wf(),
        ensures
            line.0 == self.topmost(),
    {
        let h = self.history_size();
        Line(0 - (h as i32))
    }

    pub fn bottommost_line(&self) -> (line: Line)
        requires
            self.wf(),
        ensures
            line.0 == self.bottommost(),
    {
        Line((self.screen_lines - 1) as i32)
    }

    /// Number of scrollback lines shown above the screen.
    pub fn display_offset(&self) -> (n: usize)
        ensures
            n == self.display_offset,
    {
        self.display_offset
    }

    /// Index into `rows` of a line.
    pub fn index_of(&self, line: Line) -> (i: usize)
        requires
            self.wf(),
            self.has_line(line.0 as int),
        ensures
            i == line.0 + self.history(),
            i < self.rows@.len(),
    {
        let h = self.history_size();
        ((line.0 as i64) + (h as i64)) as usize
    }

    /// The row at a line.
    pub fn row_at(&self, line: Line) -> (row: &Row)
        requires
            self.wf(),
            self.has_line(line.0 as int),
        ensures
            *row == self.row(line.0 as int),
    {
        let i = self.index_of(line);
        &self.rows[i]
    }

    pub fn mark_at(&self, line: Line) -> (mark: RowMark)
        requires
            self.wf(),
            self.has_line(line.0 as int),
        ensures
            mark == self.mark(line.0 as int),
    {
        let i = self.index_of(line);
        self.rows[i].mark
    }

    pub fn is_clear_at(&self, line: Line) -> (r: bool)
        requires
            self.wf(),
            self.has_line(line.0 as int),
        ensures
            r == self.clear_at(line.0 as int),
    {
        let i = self.index_of(line);
        self.rows[i].is_clear()
    }

    /// Place a mark on a row; nothing else changes.
    pub fn set_mark(&mut self, line: Line, mark: RowMark)
        requires
            old(self).wf(),
            old(self).has_line(line.0 as int),
        ensures
            final(self).wf(),
            final(self).rows@ == old(self).rows@.update(
                line.0 + old(self).history(),
                Row { cells: old(self).row(line.0 as int).cells, mark },
            ),
            final(self).columns == old(self).columns,
            final(self).screen_lines == old(self).screen_lines,
            final(self).max_history == old(self).max_history,
            final(self).cursor == old(self).cursor,
            final(self).display_offset == old(self).display_offset,
    {
        let i = self.index_of(line);
        self.rows[i].mark = mark;
    }
}

impl Grid {
    /// The shape of the grid and its cursor are those of `old`.
    pub open spec fn same_frame(&self, old: Grid) -> bool {
        &&& self.columns == old.columns
        &&& self.screen_lines == old.screen_lines
        &&& self.max_history == old.max_history
        &&& self.cursor == old.cursor
        &&& self.display_offset == old.display_offset
        &&& self.rows@.len() == old.rows@.len()
    }

    /// Blank the rows of lines `start..end` on the screen and drop their marks.
    pub fn reset_region(&mut self, start: Line, end: Line)
        requires
            old(self).wf(),
            0 <= start.0 <= end.0 <= old(self).screen_lines,
        ensures
            final(self).wf(),
            final(self).same_frame(*old(self)),
            forall|l: int|
                final(self).has_line(l) && start.0 <= l < end.0 ==> blank_row(
                    #[trigger] final(self).row(l),
                    final(self).columns as nat,
                ),
            forall|l: int|
                final(self).has_line(l) && !(start.0 <= l < end.0) ==> #[trigger] final(self).row(l)
                    == old(self).row(l),
    {
        let h = self.history_size();
        let mut line = start.0;
        while line < end.0
            invariant
                self.wf(),
                self.same_frame(*old(self)),
                h == self.history(),
                0 <= start.0 <= line <= end.0 <= self.screen_lines,
                forall|l: int|
                    self.has_line(l) && start.0 <= l < line ==> blank_row(
                        #[trigger] self.row(l),
                        self.columns as nat,
                    ),
                forall|l: int|
                    self.has_line(l) && !(start.0 <= l < line) ==> #[trigger] self.row(l) == old(
                        self,
                    ).row(l),
            decreases end.0 - line,
        {
            let i = self.index_of(Line(line));
            let ghost prev = *self;
            self.rows[i].reset();
            assert forall|l: int| self.has_line(l) implies #[trigger] self.row(l) == (if l == line {
                self.rows@[i as int]
            } else {
                prev.row(l)
            }) by {}
            line = line + 1;
        }
    }

    /// Set or clear the wrap flag of one cell; nothing else changes.
    pub fn set_wrapline(&mut self, line: Line, column: Column, wrapline: bool)
        requires
            old(self).wf(),
            old(self).has_line(line.0 as int),
            column.0 < old(self).columns,
        ensures
            final(self).wf(),
            final(self).same_frame(*old(self)),
            final(self).mark(line.0 as int) == old(self).mark(line.0 as int),
            final(self).row(line.0 as int).cells@ == old(self).row(line.0 as int).cells@.update(
                column.0 as int,
                Cell { wrapline, ..old(self).row(line.0 as int).cells@[column.0 as int] },
            ),
            forall|l: int|
                final(self).has_line(l) && l != line.0 ==> #[trigger] final(self).row(l) == old(
                    self,
                ).row(l),
    {
        let i = self.index_of(line);
        self.rows[i].cells[column.0].wrapline = wrapline;
    }
}


impl Grid {
    /// Scroll the whole screen up by `positions` lines: the top rows of the screen move into the
    /// scrollback, blank rows enter at the bottom, and the oldest scrollback rows beyond the limit
    /// are dropped. A viewport scrolled into the scrollback keeps showing the same rows.
    pub fn scroll_up(&mut self, positions: usize)
        requires
            old(self).wf(),
            1 <= positions <= old(self).screen_lines,
        ensures
            final(self).wf(),
            final(self).columns == old(self).columns,
            final(self).screen_lines == old(self).screen_lines,
            final(self).max_history == old(self).max_history,
            final(self).cursor == old(self).cursor,
            final(self).history() == if old(self).history() + positions <= old(self).max_history {
                old(self).history() + positions
            } else {
                old(self).max_history as int
            },
            final(self).display_offset == if old(self).display_offset == 0 {
                0
            } else if old(self).display_offset + positions <= old(self).max_history {
                old(self).display_offset + positions
            } else {
                old(self).max_history as int
            },
            forall|l: int|
                final(self).has_line(l) && l + positions <= old(self).bottommost()
                    ==> #[trigger] final(self).row(l) == old(self).row(l + positions),
            forall|l: int|
                final(self).has_line(l) && l + positions > old(self).bottommost() ==> blank_row(
                    #[trigger] final(self).row(l),
                    final(self).columns as nat,
                ),
    {
        // Update display offset when not pinned to active area.
        if self.display_offset != 0 {
            self.display_offset = if self.display_offset + positions <= self.max_history {
                self.display_offset + positions
            } else {
                self.max_history
            };
        }

        let ghost old_rows = self.rows@;
        let ghost offset = self.display_offset;
        let len = self.rows.len();
        let mut i: usize = 0;
        while i < positions
            invariant
                i <= positions <= self.screen_lines,
                self.columns == old(self).columns,
                self.screen_lines == old(self).screen_lines,
                1 <= self.columns <= MAX_LINES,
                self.screen_lines <= MAX_LINES,
                len == old_rows.len(),
                len <= self.screen_lines + self.max_history,
                self.max_history <= MAX_LINES,
                self.max_history == old(self).max_history,
                self.cursor == old(self).cursor,
                self.display_offset == offset,
                self.rows@.len() == len + i,
                forall|j: int| 0 <= j < len ==> #[trigger] self.rows@[j] == old_rows[j],
                forall|j: int| len <= j < len + i ==> blank_row(#[trigger] self.rows@[j], self.columns as nat),
            decreases positions - i,
        {
            self.rows.push(Row::new(self.columns));
            i = i + 1;
        }

        // Drop the scrollback rows beyond the limit.
        let limit = self.screen_lines + self.max_history;
        if self.rows.len() > limit {
            let drop = self.rows.len() - limit;
            let kept = self.rows.split_off(drop);
            self.rows = kept;
        }
        assert(self.rows_wf()) by {
            assert forall|j: int| 0 <= j < self.rows@.len() implies (#[trigger] self.rows@[j]).cells@.len()
                == self.columns by {
                assert(self.columns == old(self).columns);
            }
        }
    }

    /// Drop every scrollback row.
    pub fn clear_history(&mut self)
        requires
            old(self).wf(),
        ensures
            final(self).wf(),
            final(self).columns == old(self).columns,
            final(self).screen_lines == old(self).screen_lines,
            final(self).max_history == old(self).max_history,
            final(self).cursor == old(self).cursor,
            final(self).history() == 0,
            final(self).display_offset == 0,
            forall|l: int|
                0 <= l < final(self).screen_lines ==> #[trigger] final(self).row(l) == old(self).row(l),
    {
        let h = self.history_size();
        let kept = self.rows.split_off(h);
        self.rows = kept;
        self.display_offset = 0;
    }
}


impl Grid {
    /// Replace one cell; nothing else changes.
    pub fn set_cell(&mut self, line: Line, column: Column, cell: Cell)
        requires
            old(self).wf(),
            old(self).has_line(line.0 as int),
            column.0 < old(self).columns,
        ensures
            final(self).wf(),
            final(self).same_frame(*old(self)),
            final(self).mark(line.0 as int) == old(self).mark(line.0 as int),
            final(self).row(line.0 as int).cells@ == old(self).row(line.0 as int).cells@.update(
                column.0 as int,
                cell,
            ),
            forall|l: int|
                final(self).has_line(l) && l != line.0 ==> #[trigger] final(self).row(l) == old(
                    self,
                ).row(l),
    {
        let i = self.index_of(line);
        self.rows[i].cells[column.0] = cell;
    }

    /// The cell at a position.
    pub fn cell_at(&self, line: Line, column: Column) -> (cell: Cell)
        requires
            self.wf(),
            self.has_line(line.0 as int),
            column.0 < self.columns,
        ensures
            cell == self.row(line.0 as int).cells@[column.0 as int],
    {
        let i = self.index_of(line);
        self.rows[i].cells[column.0]
    }

    /// Blank the cells of a row from a column to its end, keeping its mark.
    pub fn clear_row_from(&mut self, line: Line, column: Column)
        requires
            old(self).wf(),
            old(self).has_line(line.0 as int),
            column.0 < old(self).columns,
        ensures
            final(self).wf(),
            final(self).same_frame(*old(self)),
            final(self).mark(line.0 as int) == old(self).mark(line.0 as int),
            final(self).row(line.0 as int).cells@ == old(self).row(line.0 as int).cells@.subrange(
                0,
                column.0 as int,
            ) + blank_cells((old(self).columns - column.0) as nat),
            forall|l: int|
                final(self).has_line(l) && l != line.0 ==> #[trigger] final(self).row(l) == old(
                    self,
                ).row(l),
    {
        let i = self.index_of(line);
        let ghost before = self.rows@[i as int].cells@;
        let mut c = column.0;
        while c < self.columns
            invariant
                self.wf(),
                self.same_frame(*old(self)),
                i == line.0 + self.history(),
                i < self.rows@.len(),
                column.0 <= c <= self.columns,
                before.len() == self.columns,
                self.rows@[i as int].mark == old(self).rows@[i as int].mark,
                self.rows@[i as int].cells@ == before.subrange(0, column.0 as int) + blank_cells(
                    (c - column.0) as nat,
                ) + before.subrange(c as int, self.columns as int),
                forall|j: int| 0 <= j < self.rows@.len() && j != i ==> #[trigger] self.rows@[j] == old(
                    self,
                ).rows@[j],
            decreases self.columns - c,
        {
            let ghost prev = self.rows@[i as int].cells@;
            self.rows[i].cells[c] = Cell::blank();
            c = c + 1;
            assert(self.rows@[i as int].cells@ =~= before.subrange(0, column.0 as int) + blank_cells(
                (c - column.0) as nat,
            ) + before.subrange(c as int, self.columns as int));
        }
        assert(self.rows@[i as int].cells@ =~= before.subrange(0, column.0 as int) + blank_cells(
            (self.columns - column.0) as nat,
        ));
        assert forall|l: int| self.has_line(l) && l != line.0 implies #[trigger] self.row(l) == old(
            self,
        ).row(l) by {}
    }
}


impl Grid {
    /// Empty the scrollback, blank the screen and put the cursor at the top left.
    pub fn reset(&mut self)
        requires
            old(self).wf(),
        ensures
            final(self).wf(),
            final(self).columns == old(self).columns,
            final(self).screen_lines == old(self).screen_lines,
            final(self).max_history == old(self).max_history,
            final(self).history() == 0,
            final(self).display_offset == 0,
            final(self).cursor == (Cursor {
                point: Point { line: Line(0), column: Column(0) },
                input_needs_wrap: false,
            }),
            forall|l: int|
                final(self).has_line(l) ==> blank_row(
                    #[trigger] final(self).row(l),
                    final(self).columns as nat,
                ),
    {
        self.clear_history();
        self.cursor = Cursor {
            point: Point { line: Line(0), column: Column(0) },
            input_needs_wrap: false,
        };
        self.display_offset = 0;
        let end = Line(self.screen_lines as i32);
        self.reset_region(Line(0), end);
    }

    /// Whether a line of the screen has a cell that is not empty.
    fn line_has_content(&self, line: Line) -> (r: bool)
        requires
            self.wf(),
            self.has_line(line.0 as int),
        ensures
            r == !self.clear_at(line.0 as int),
    {
        !self.is_clear_at(line)
    }

    /// Number of screen rows above and including the last one with content.
    pub open spec fn content_end(&self, line: int) -> int
        decreases line,
    {
        if line <= 0 {
            0
        } else if !self.clear_at(line - 1) {
            line
        } else {
            self.content_end(line - 1)
        }
    }

    /// Rows that clearing the screen moves into the scrollback: those down to the last row with
    /// content, or a blank row when the screen and the scrollback are empty.
    pub open spec fn cleared_rows(&self) -> int {
        let end = self.content_end(self.screen_lines as int);
        if end > 0 {
            end
        } else if self.history() > 0 {
            0
        } else {
            1
        }
    }

    /// Move the content of the screen into the scrollback, down to its last row with content,
    /// and blank the screen.
    pub fn clear_viewport(&mut self)
        requires
            old(self).wf(),
        ensures
            final(self).wf(),
            final(self).columns == old(self).columns,
            final(self).screen_lines == old(self).screen_lines,
            final(self).max_history == old(self).max_history,
            final(self).cursor == old(self).cursor,
            final(self).history() == if old(self).history() + old(self).cleared_rows()
                <= old(self).max_history {
                old(self).history() + old(self).cleared_rows()
            } else {
                old(self).max_history as int
            },
            forall|l: int|
                0 <= l < final(self).screen_lines ==> blank_row(
                    #[trigger] final(self).row(l),
                    final(self).columns as nat,
                ),
            forall|l: int|
                final(self).has_line(l) && l < 0 ==> #[trigger] final(self).row(l) == old(self).row(
                    l + old(self).cleared_rows(),
                ),
    {
        // Determine how many lines to scroll up by.
        let mut line: i32 = self.screen_lines as i32;
        let mut found = false;
        while line > 0 && !found
            invariant
                self.wf(),
                0 <= line <= self.screen_lines,
                found ==> line < self.screen_lines,
                !found ==> self.content_end(self.screen_lines as int) == self.content_end(
                    line as int,
                ),
                found ==> self.content_end(self.screen_lines as int) == line + 1,
            decreases line + (if found { 0int } else { 1int }),
        {
            line = line - 1;
            if self.line_has_content(Line(line)) {
                found = true;
            }
        }
        let positions: usize = if found {
            (line + 1) as usize
        } else if self.history_size() > 0 {
            0
        } else {
            1
        };

        // Clear the viewport.
        if positions > 0 {
            self.scroll_up(positions);
        }

        assert(positions == old(self).cleared_rows());
        // Reset rotated lines.
        let end = Line((self.screen_lines - positions) as i32);
        let ghost scrolled = *self;
        self.reset_region(Line(0), end);
        assert forall|l: int| 0 <= l < self.screen_lines implies blank_row(
            #[trigger] self.row(l),
            self.columns as nat,
        ) by {
            if l >= end.0 {
                assert(scrolled.row(l) == self.row(l));
                if positions == 0 {
                    assert(false);
                }
            }
        }
    }
}

} // verus!
