//! The terminal state: the active grid, the inactive grid of the other screen, the modes and the
//! shell state reported through OSC 133.

use vstd::prelude::*;

use crate::grid::{blank_row, Cell, Grid, RowMark, MAX_LINES};
use crate::index::{Column, Direction, Line, Point};
use crate::prompt::{PromptState, PromptZone};

verus! {

/// Cursor of the vi mode, which moves over the scrollback independently of the terminal cursor.
#[derive(Debug, Clone, Copy, PartialEq, Eq, Structural)]
pub struct ViModeCursor {
    pub point: Point,
}

/// Terminal state.
#[derive(Debug)]
pub struct Term {
    /// The grid shown: the primary screen, or the alternate screen while it is active.
    pub grid: Grid,
    /// The grid of the other screen.
    pub inactive_grid: Grid,
    /// The alternate screen is active.
    pub alt_screen: bool,
    /// The vi mode is active.
    pub vi_mode: bool,
    pub vi_mode_cursor: ViModeCursor,
    /// Shell state reported through OSC 133.
    pub prompt: PromptState,
    /// The whole screen has to be redrawn.
    pub fully_damaged: bool,
}

/// Every row keeps its mark, and the grid keeps its number of rows.
pub open spec fn marks_unchanged(new: Grid, old: Grid) -> bool {
    &&& new.rows@.len() == old.rows@.len()
    &&& new.screen_lines == old.screen_lines
    &&& forall|l: int| old.has_line(l) ==> #[trigger] new.mark(l) == old.mark(l)
}

/// Marks after the cursor of `old` moved down a row, scrolling at the bottom of the screen: the
/// rows keep their marks as they move, and the prompt extends onto the row the cursor arrives on
/// while the shell is at its prompt on the primary screen.
pub open spec fn moved_down_marks(new: Grid, old: Grid, zone: PromptZone, alt: bool) -> bool {
    let from = old.cursor.point.line.0 as int;
    let scrolled = from + 1 >= old.screen_lines;
    let line = if scrolled {
        from
    } else {
        from + 1
    };
    let arrived = if scrolled {
        RowMark::Unmarked
    } else {
        old.mark(line)
    };
    &&& new.screen_lines == old.screen_lines
    &&& new.cursor.point.line.0 == line
    &&& new.mark(line) == if zone != PromptZone::Output && !alt && arrived == RowMark::Unmarked {
        RowMark::PromptContinuation
    } else {
        arrived
    }
    &&& forall|l: int|
        new.has_line(l) && l != line ==> #[trigger] new.mark(l) == old.mark(
            if scrolled {
                l + 1
            } else {
                l
            },
        )
    &&& !scrolled ==> new.rows@.len() == old.rows@.len()
    &&& scrolled ==> new.history() == if old.history() + 1 <= old.max_history {
        old.history() + 1
    } else {
        old.max_history as int
    }
}

/// The cells of a row after `cell` is written at `column`: a wide character that it overwrites
/// loses its spacer, and a spacer that it overwrites loses its wide character.
pub open spec fn written_row(cells: Seq<Cell>, column: int, cell: Cell) -> Seq<Cell> {
    let current = cells[column];
    let cleared = if current.wide_char && column < cells.len() - 1 {
        cells.update(column + 1, (Cell { wide_char_spacer: false, ..cells[column + 1] }))
    } else if (current.wide_char || current.wide_char_spacer) && column > 0 {
        cells.update(column - 1, (Cell { wide_char: false, c: ' ', ..cells[column - 1] }))
    } else {
        cells
    };
    cleared.update(column, cell)
}

/// The cells of the row above after a write at `column` over `current`: a wide character
/// overwritten at the start of the row no longer leaves a leading spacer at the end of the row
/// above.
pub open spec fn written_above(cells: Seq<Cell>, current: Cell, column: int) -> Seq<Cell> {
    if (current.wide_char || current.wide_char_spacer) && column <= 1 {
        cells.update(
            cells.len() - 1,
            (Cell { leading_wide_char_spacer: false, ..cells[cells.len() - 1] }),
        )
    } else {
        cells
    }
}

/// The rows after the row of the cursor of `old` wrapped into the next one: its cell at the
/// cursor carries the wrap flag, and the cursor arrives on the next row, which is a blank one
/// when the screen scrolled; the other rows stay, moved up a row when the screen scrolled.
#[verifier::opaque]
pub open spec fn wrapped_rows(new: Grid, old: Grid) -> bool {
    let from = old.cursor.point.line.0 as int;
    let column = old.cursor.point.column.0 as int;
    let flagged = old.row(from).cells@.update(
        column,
        (Cell { wrapline: true, ..old.row(from).cells@[column] }),
    );
    if from + 1 < old.screen_lines {
        &&& new.row(from).cells@ == flagged
        &&& new.row(from + 1).cells@ == old.row(from + 1).cells@
        &&& forall|l: int|
            old.has_line(l) && l != from && l != from + 1 ==> #[trigger] new.row(l) == old.row(l)
    } else {
        &&& new.row(from).cells@ == crate::grid::blank_cells(old.columns as nat)
        &&& new.has_line(from - 1) ==> new.row(from - 1).cells@ == flagged
        &&& forall|l: int|
            new.has_line(l) && l != from && l != from - 1 ==> #[trigger] new.row(l) == old.row(l + 1)
    }
}

/// The rows of `new` are those of `old` after `cell` was written at `line` and `column`: only
/// that row and the row above it change, as `written_row` and `written_above` say, and every row
/// keeps its mark.
#[verifier::opaque]
pub open spec fn written_at(new: Grid, old: Grid, line: int, column: int, cell: Cell) -> bool {
    &&& new.rows@.len() == old.rows@.len()
    &&& new.screen_lines == old.screen_lines
    &&& forall|l: int| old.has_line(l) ==> #[trigger] new.mark(l) == old.mark(l)
    &&& new.row(line).cells@ == written_row(old.row(line).cells@, column, cell)
    &&& line > old.topmost() ==> new.row(line - 1).cells@ == written_above(
        old.row(line - 1).cells@,
        old.row(line).cells@[column],
        column,
    )
    &&& forall|l: int|
        old.has_line(l) && l != line && l != line - 1 ==> #[trigger] new.row(l) == old.row(l)
}

/// The rows of `new` are those of `old` after a character was printed at `line` and `column`:
/// one cell, or a wide character and its spacer.
#[verifier::opaque]
pub open spec fn printed_at(
    new: Grid,
    old: Grid,
    line: int,
    column: int,
    c: char,
    wide: bool,
) -> bool {
    let plain = Cell {
        c,
        wrapline: false,
        wide_char: false,
        wide_char_spacer: false,
        leading_wide_char_spacer: false,
    };
    if wide {
        exists|glyph: Grid|
            #[trigger] written_at(glyph, old, line, column, (Cell { wide_char: true, ..plain }))
                && written_at(
                new,
                glyph,
                line,
                column + 1,
                (Cell { c: ' ', wide_char_spacer: true, ..plain }),
            )
    } else {
        written_at(new, old, line, column, plain)
    }
}

/// Only the rows matter to `written_at`.
proof fn lemma_written_at_rows(a: Grid, b: Grid, old: Grid, line: int, column: int, cell: Cell)
    requires
        written_at(a, old, line, column, cell),
        b.rows == a.rows,
        b.screen_lines == a.screen_lines,
    ensures
        written_at(b, old, line, column, cell),
{
    reveal(written_at);
    assert forall|l: int| old.has_line(l) implies #[trigger] b.mark(l) == old.mark(l) by {
        assert(a.mark(l) == old.mark(l));
    }
    assert forall|l: int| old.has_line(l) && l != line && l != line - 1 implies #[trigger] b.row(l)
        == old.row(l) by {
        assert(a.row(l) == old.row(l));
    }
}

/// The line where printing on `g` starts: the next one when the row of the cursor is full.
pub open spec fn print_line(g: Grid) -> int {
    let line = g.cursor.point.line.0 as int;
    if g.cursor.input_needs_wrap {
        if line + 1 < g.screen_lines {
            line + 1
        } else {
            line
        }
    } else {
        line
    }
}

/// The column where printing on `g` starts.
pub open spec fn print_column(g: Grid) -> int {
    if g.cursor.input_needs_wrap {
        0
    } else {
        g.cursor.point.column.0 as int
    }
}

/// Printing on `g` wraps to the next row first: the row is full, or a wide character does not
/// fit in it.
pub open spec fn print_wraps(g: Grid, wide: bool) -> bool {
    g.cursor.input_needs_wrap || (wide && print_column(g) + 1 >= g.columns)
}

/// Moving the cursor alone keeps every row.
proof fn lemma_same_rows(a: Grid, b: Grid)
    requires
        b.rows == a.rows,
        b.screen_lines == a.screen_lines,
    ensures
        marks_unchanged(b, a),
        forall|l: int| a.has_line(l) ==> #[trigger] b.row(l) == a.row(l),
{
}

proof fn lemma_marks_unchanged_trans(a: Grid, b: Grid, c: Grid)
    requires
        marks_unchanged(b, a),
        marks_unchanged(c, b),
    ensures
        marks_unchanged(c, a),
{
    assert forall|l: int| a.has_line(l) implies #[trigger] c.mark(l) == a.mark(l) by {
        assert(b.has_line(l));
    }
}

/// A move down followed by changes that keep the marks and the cursor row is still that move.
proof fn lemma_moved_then_kept(o: Grid, m: Grid, f: Grid, zone: PromptZone, alt: bool)
    requires
        o.wf(),
        moved_down_marks(m, o, zone, alt),
        marks_unchanged(f, m),
        f.cursor.point.line == m.cursor.point.line,
    ensures
        moved_down_marks(f, o, zone, alt),
{
    assert forall|l: int| f.has_line(l) && l != f.cursor.point.line.0 implies #[trigger] f.mark(l)
        == o.mark(
        if o.cursor.point.line.0 + 1 >= o.screen_lines {
            l + 1
        } else {
            l
        },
    ) by {
        assert(m.has_line(l));
        assert(m.mark(l) == f.mark(l));
    }
    assert(m.has_line(m.cursor.point.line.0 as int));
}

/// Changes that keep the marks and the cursor row, followed by a move down, are that move.
proof fn lemma_kept_then_moved(o: Grid, m: Grid, f: Grid, zone: PromptZone, alt: bool)
    requires
        o.wf(),
        o.max_history == m.max_history,
        marks_unchanged(m, o),
        m.cursor.point.line == o.cursor.point.line,
        moved_down_marks(f, m, zone, alt),
    ensures
        moved_down_marks(f, o, zone, alt),
{
    let scrolled = o.cursor.point.line.0 + 1 >= o.screen_lines;
    assert forall|l: int| f.has_line(l) && l != f.cursor.point.line.0 implies #[trigger] f.mark(l)
        == o.mark(
        if scrolled {
            l + 1
        } else {
            l
        },
    ) by {
        let k = if scrolled {
            l + 1
        } else {
            l
        };
        assert(m.has_line(k));
        assert(m.mark(k) == o.mark(k));
    }
    if !scrolled {
        let line = o.cursor.point.line.0 + 1;
        assert(o.has_line(line));
        assert(m.mark(line) == o.mark(line));
    }
}

impl Term {
    pub open spec fn wf(&self) -> bool {
        &&& self.grid.wf()
        &&& self.inactive_grid.wf()
        &&& self.grid.columns >= 2
        &&& self.grid.columns == self.inactive_grid.columns
        &&& self.grid.screen_lines == self.inactive_grid.screen_lines
        &&& (if self.alt_screen {
            self.grid.max_history == 0
        } else {
            self.inactive_grid.max_history == 0
        })
        &&& self.grid.has_line(self.vi_mode_cursor.point.line.0 as int)
        &&& self.vi_mode_cursor.point.column.0 < self.grid.columns
    }

    /// The primary grid, whether it is shown or not.
    pub open spec fn primary(&self) -> Grid {
        if self.alt_screen {
            self.inactive_grid
        } else {
            self.grid
        }
    }

    /// The active grid.
    pub fn grid(&self) -> (grid: &Grid)
        ensures
            *grid == self.grid,
    {
        &self.grid
    }

    pub fn screen_lines(&self) -> (n: usize)
        ensures
            n == self.grid.screen_lines,
    {
        self.grid.screen_lines
    }

    pub fn columns(&self) -> (n: usize)
        ensures
            n == self.grid.columns,
    {
        self.grid.columns
    }

    pub fn last_column(&self) -> (column: Column)
        requires
            self.wf(),
        ensures
            column.0 == self.grid.columns - 1,
    {
        Column(self.grid.columns - 1)
    }

    /// The topmost line of the scrollback.
    pub fn topmost_line(&self) -> (line: Line)
        requires
            self.wf(),
        ensures
            line.0 == self.grid.topmost(),
    {
        self.grid.topmost_line()
    }

    /// The bottom line of the screen.
    pub fn bottommost_line(&self) -> (line: Line)
        requires
            self.wf(),
        ensures
            line.0 == self.grid.bottommost(),
    {
        self.grid.bottommost_line()
    }

    /// Number of rows in the scrollback of the active grid.
    pub fn history_size(&self) -> (n: usize)
        requires
            self.wf(),
        ensures
            n == self.grid.history(),
    {
        self.grid.history_size()
    }
}


/// How much of the screen an erase in display clears.
#[derive(Debug, Clone, Copy, PartialEq, Eq, Structural)]
pub enum ClearMode {
    /// From the cursor to the end of the screen.
    Below,
    /// The whole screen.
    All,
    /// The scrollback.
    Saved,
}

/// Vi mode motions over prompts.
#[derive(Debug, Clone, Copy, PartialEq, Eq, Structural)]
pub enum ViMotion {
    /// Move to the previous prompt row.
    PromptUp,
    /// Move to the next prompt row.
    PromptDown,
}

impl Term {
    /// A terminal with blank screens, an empty scrollback and no marker seen.
    pub fn new(columns: usize, screen_lines: usize, history: usize) -> (term: Term)
        requires
            2 <= columns <= MAX_LINES,
            1 <= screen_lines <= MAX_LINES,
            history <= MAX_LINES,
        ensures
            term.wf(),
            term.grid.columns == columns,
            term.grid.screen_lines == screen_lines,
            term.grid.max_history == history,
            term.grid.history() == 0,
            !term.alt_screen,
            !term.vi_mode,
            term.prompt == PromptState::initial(),
            term.grid.cursor.point == (Point { line: Line(0), column: Column(0) }),
            !term.grid.cursor.input_needs_wrap,
            term.grid.display_offset == 0,
            term.vi_mode_cursor.point == (Point { line: Line(0), column: Column(0) }),
            forall|l: int|
                term.grid.has_line(l) ==> blank_row(#[trigger] term.grid.row(l), columns as nat),
    {
        Term {
            grid: Grid::new(columns, screen_lines, history),
            inactive_grid: Grid::new(columns, screen_lines, 0),
            alt_screen: false,
            vi_mode: false,
            vi_mode_cursor: ViModeCursor { point: Point { line: Line(0), column: Column(0) } },
            prompt: PromptState::default(),
            fully_damaged: false,
        }
    }

    /// The cursor of the active grid.
    pub fn cursor_point(&self) -> (point: Point)
        ensures
            point == self.grid.cursor.point,
    {
        self.grid.cursor.point
    }

    /// Scroll the screen up, moving its top rows into the scrollback.
    fn scroll_up(&mut self, lines: usize)
        requires
            old(self).wf(),
            1 <= lines <= old(self).grid.screen_lines,
        ensures
            final(self).wf(),
            final(self).prompt == old(self).prompt,
            final(self).alt_screen == old(self).alt_screen,
            final(self).vi_mode == old(self).vi_mode,
            final(self).inactive_grid == old(self).inactive_grid,
            final(self).grid.cursor == old(self).grid.cursor,
            final(self).grid.columns == old(self).grid.columns,
            final(self).grid.screen_lines == old(self).grid.screen_lines,
            final(self).grid.max_history == old(self).grid.max_history,
            final(self).grid.history() == if old(self).grid.history() + lines
                <= old(self).grid.max_history {
                old(self).grid.history() + lines
            } else {
                old(self).grid.max_history as int
            },
            forall|l: int|
                final(self).grid.has_line(l) && l + lines <= old(self).grid.bottommost()
                    ==> #[trigger] final(self).grid.row(l) == old(self).grid.row(l + lines),
            forall|l: int|
                final(self).grid.has_line(l) && l + lines > old(self).grid.bottommost() ==> blank_row(
                    #[trigger] final(self).grid.row(l),
                    final(self).grid.columns as nat,
                ),
    {
        // Move the vi mode cursor with the content of the viewport.
        let top: i32 = 0 - (self.grid.display_offset as i32);
        let line = self.vi_mode_cursor.point.line.0;
        if top <= line && line < self.grid.screen_lines as i32 {
            let moved = line - (lines as i32);
            self.vi_mode_cursor.point.line = Line(if moved >= top { moved } else { top });
        }
        self.grid.scroll_up(lines);
    }

    /// Move the cursor down one row, scrolling at the bottom of the screen, and extend the prompt
    /// onto the new row.
    pub fn linefeed(&mut self)
        requires
            old(self).wf(),
        ensures
            final(self).wf(),
            final(self).prompt == old(self).prompt,
            final(self).alt_screen == old(self).alt_screen,
            final(self).grid.cursor.point.column == old(self).grid.cursor.point.column,
            final(self).grid.cursor.point.line.0 == if old(self).grid.cursor.point.line.0 + 1
                < old(self).grid.screen_lines {
                old(self).grid.cursor.point.line.0 + 1
            } else {
                old(self).grid.cursor.point.line.0 as int
            },
            final(self).grid.columns == old(self).grid.columns,
            final(self).grid.screen_lines == old(self).grid.screen_lines,
            final(self).inactive_grid == old(self).inactive_grid,
            ({
                let line = final(self).grid.cursor.point.line.0 as int;
                let scrolled = old(self).grid.cursor.point.line.0 + 1 >= old(self).grid.screen_lines;
                // The row the cursor arrives on, before the prompt extends onto it.
                let arrived = if scrolled {
                    RowMark::Unmarked
                } else {
                    old(self).grid.mark(line)
                };
                &&& final(self).grid.mark(line) == if old(self).prompt.zone != PromptZone::Output
                    && !old(self).alt_screen && arrived == RowMark::Unmarked {
                    RowMark::PromptContinuation
                } else {
                    arrived
                }
                &&& final(self).grid.row(line).cells@ == if scrolled {
                    crate::grid::blank_cells(old(self).grid.columns as nat)
                } else {
                    old(self).grid.row(line).cells@
                }
                &&& !scrolled ==> final(self).grid.rows@.len() == old(self).grid.rows@.len() && forall|l: int|
                    final(self).grid.has_line(l) && l != line ==> #[trigger] final(self).grid.row(l)
                        == old(self).grid.row(l)
                &&& scrolled ==> forall|l: int|
                    final(self).grid.has_line(l) && l != line ==> #[trigger] final(self).grid.row(l)
                        == old(self).grid.row(l + 1)
            }),
            moved_down_marks(final(self).grid, old(self).grid, old(self).prompt.zone, old(self).alt_screen),
    {
        let next = self.grid.cursor.point.line.0 + 1;
        if next == self.grid.screen_lines as i32 {
            self.scroll_up(1);
        } else if next < self.grid.screen_lines as i32 {
            self.grid.cursor.point.line = Line(next);
        }
        self.inherit_prompt_mark();
    }

    /// Move the cursor to the first column.
    pub fn carriage_return(&mut self)
        requires
            old(self).wf(),
        ensures
            final(self).wf(),
            *final(self) == (Term {
                grid: Grid {
                    cursor: crate::grid::Cursor {
                        point: Point { column: Column(0), ..old(self).grid.cursor.point },
                        input_needs_wrap: false,
                    },
                    ..old(self).grid
                },
                ..*old(self)
            }),
    {
        self.grid.cursor.point.column = Column(0);
        self.grid.cursor.input_needs_wrap = false;
    }

    /// Continue on the next row: the row of the cursor wraps into it.
    fn wrapline(&mut self)
        requires
            old(self).wf(),
        ensures
            final(self).wf(),
            final(self).prompt == old(self).prompt,
            final(self).alt_screen == old(self).alt_screen,
            final(self).grid.cursor.point.column.0 == 0,
            !final(self).grid.cursor.input_needs_wrap,
            final(self).grid.cursor.point.line.0 == if old(self).grid.cursor.point.line.0 + 1
                < old(self).grid.screen_lines {
                old(self).grid.cursor.point.line.0 + 1
            } else {
                old(self).grid.cursor.point.line.0 as int
            },
            final(self).grid.columns == old(self).grid.columns,
            final(self).grid.screen_lines == old(self).grid.screen_lines,
            moved_down_marks(final(self).grid, old(self).grid, old(self).prompt.zone, old(self).alt_screen),
            wrapped_rows(final(self).grid, old(self).grid),
    {
        reveal(wrapped_rows);
        let point = self.grid.cursor.point;
        let cell = self.grid.cell_at(point.line, point.column);
        self.grid.set_cell(point.line, point.column, Cell { wrapline: true, ..cell });
        let ghost flagged = self.grid;

        if point.line.0 + 1 >= self.grid.screen_lines as i32 {
            self.linefeed();
        } else {
            self.grid.cursor.point.line = Line(point.line.0 + 1);
        }
        let ghost after = self.grid;

        self.grid.cursor.point.column = Column(0);
        self.grid.cursor.input_needs_wrap = false;
        let ghost moved = self.grid;
        self.inherit_prompt_mark();
        proof {
            let line = self.grid.cursor.point.line.0 as int;
            assert forall|l: int| old(self).grid.has_line(l) implies #[trigger] flagged.mark(l)
                == old(self).grid.mark(l) by {
                if l != point.line.0 {
                    assert(flagged.row(l) == old(self).grid.row(l));
                }
            }
            if point.line.0 + 1 < old(self).grid.screen_lines {
                assert(flagged.row(line) == old(self).grid.row(line));
                assert(moved.mark(line) == old(self).grid.mark(line));
            } else {
                assert(moved.mark(line) == if old(self).prompt.zone != PromptZone::Output
                    && !old(self).alt_screen {
                    RowMark::PromptContinuation
                } else {
                    RowMark::Unmarked
                });
            }
            let scrolled = point.line.0 + 1 >= old(self).grid.screen_lines;
            assert forall|l: int| self.grid.has_line(l) && l != line implies #[trigger] self.grid.row(l)
                == after.row(l) by {
                assert(self.grid.row(l) == moved.row(l));
            }
            assert(self.grid.row(line).cells == after.row(line).cells);
            if !scrolled {
                assert forall|l: int|
                    old(self).grid.has_line(l) && l != point.line.0 && l != point.line.0 + 1 implies
                    #[trigger] self.grid.row(l) == old(self).grid.row(l) by {
                    assert(self.grid.row(l) == after.row(l));
                    assert(after.row(l) == flagged.row(l));
                }
                assert(self.grid.row(point.line.0 as int) == after.row(point.line.0 as int));
                assert(after.row(point.line.0 as int) == flagged.row(point.line.0 as int));
                assert(after.row(line) == flagged.row(line));
                assert(flagged.row(line) == old(self).grid.row(line));
            } else {
                assert forall|l: int| self.grid.has_line(l) && l != line && l != line - 1 implies
                    #[trigger] self.grid.row(l) == old(self).grid.row(l + 1) by {
                    assert(self.grid.row(l) == after.row(l));
                    assert(after.row(l) == flagged.row(l + 1));
                    assert(flagged.row(l + 1) == old(self).grid.row(l + 1));
                }
                if self.grid.has_line(line - 1) {
                    assert(self.grid.row(line - 1) == after.row(line - 1));
                    assert(after.row(line - 1) == flagged.row(line));
                }
            }
            assert forall|l: int| self.grid.has_line(l) && l != line implies #[trigger] self.grid.mark(l)
                == old(self).grid.mark(if scrolled { l + 1 } else { l }) by {
                assert(self.grid.row(l) == moved.row(l));
                assert(moved.mark(l) == after.mark(l));
                if scrolled {
                    assert(after.mark(l) == flagged.mark(l + 1));
                    assert(old(self).grid.has_line(l + 1));
                } else {
                    assert(after.row(l) == flagged.row(l));
                }
            }
            assert forall|l: int| moved.has_line(l) implies #[trigger] self.grid.mark(l) == (if l
                == line && old(self).prompt.zone != PromptZone::Output && !old(self).alt_screen
                && moved.mark(l) == RowMark::Unmarked {
                RowMark::PromptContinuation
            } else {
                moved.mark(l)
            }) by {
                if l != line {
                    assert(self.grid.row(l) == moved.row(l));
                }
            }
        }
    }

    /// Write a cell at the cursor, removing what is left of a wide character it overwrites.
    fn write_at_cursor(&mut self, cell: Cell)
        requires
            old(self).wf(),
        ensures
            final(self).wf(),
            final(self).prompt == old(self).prompt,
            final(self).alt_screen == old(self).alt_screen,
            final(self).grid.cursor == old(self).grid.cursor,
            final(self).grid.columns == old(self).grid.columns,
            final(self).grid.screen_lines == old(self).grid.screen_lines,
            final(self).grid.row(old(self).grid.cursor.point.line.0 as int).cells@[old(
                self,
            ).grid.cursor.point.column.0 as int] == cell,
            final(self).grid.max_history == old(self).grid.max_history,
            marks_unchanged(final(self).grid, old(self).grid),
            forall|l: int|
                old(self).grid.has_line(l) && l != old(self).grid.cursor.point.line.0 && l + 1
                    != old(self).grid.cursor.point.line.0 ==> #[trigger] final(self).grid.row(l)
                    == old(self).grid.row(l),
            written_at(
                final(self).grid,
                old(self).grid,
                old(self).grid.cursor.point.line.0 as int,
                old(self).grid.cursor.point.column.0 as int,
                cell,
            ),
            ({
                let g = old(self).grid;
                let line = g.cursor.point.line.0 as int;
                let column = g.cursor.point.column.0 as int;
                &&& final(self).grid.row(line).cells@ == written_row(g.row(line).cells@, column, cell)
                &&& line > g.topmost() ==> final(self).grid.row(line - 1).cells@ == written_above(
                    g.row(line - 1).cells@,
                    g.row(line).cells@[column],
                    column,
                )
            }),
    {
        reveal(written_at);
        let point = self.grid.cursor.point;
        let last_column = self.grid.columns - 1;
        let current = self.grid.cell_at(point.line, point.column);

        // Clear all related cells when overwriting a fullwidth cell.
        if current.wide_char || current.wide_char_spacer {
            if current.wide_char && point.column.0 < last_column {
                let next = Column(point.column.0 + 1);
                let spacer = self.grid.cell_at(point.line, next);
                self.grid.set_cell(point.line, next, Cell { wide_char_spacer: false, ..spacer });
            } else if point.column.0 > 0 {
                let previous = Column(point.column.0 - 1);
                let wide = self.grid.cell_at(point.line, previous);
                self.grid.set_cell(point.line, previous, Cell { wide_char: false, c: ' ', ..wide });
            }

            // Remove leading spacers.
            let topmost = self.grid.topmost_line();
            if point.column.0 <= 1 && point.line.0 != topmost.0 {
                let above = Line(point.line.0 - 1);
                let leading = self.grid.cell_at(above, Column(last_column));
                self.grid.set_cell(
                    above,
                    Column(last_column),
                    Cell { leading_wide_char_spacer: false, ..leading },
                );
            }
        }

        self.grid.set_cell(point.line, point.column, cell);
    }

    /// Print a character at the cursor, one column wide or two columns wide when `wide`.
    #[verifier::rlimit(100)]
    #[verifier::spinoff_prover]
    pub fn input(&mut self, c: char, wide: bool)
        requires
            old(self).wf(),
        ensures
            final(self).wf(),
            final(self).prompt == old(self).prompt,
            final(self).alt_screen == old(self).alt_screen,
            final(self).grid.columns == old(self).grid.columns,
            final(self).grid.screen_lines == old(self).grid.screen_lines,
            // The character is printed on the line and column where it starts.
            !wide ==> {
                let cursor = final(self).grid.cursor;
                let line = print_line(old(self).grid);
                let column = print_column(old(self).grid);
                &&& final(self).grid.row(line).cells@[column] == (Cell {
                    c,
                    wrapline: false,
                    wide_char: false,
                    wide_char_spacer: false,
                    leading_wide_char_spacer: false,
                })
                &&& cursor.point.line.0 == line
                &&& if column + 1 < old(self).grid.columns {
                    cursor.point.column.0 == column + 1 && !cursor.input_needs_wrap
                } else {
                    cursor.point.column.0 == column && cursor.input_needs_wrap
                }
            },
            wide && print_column(old(self).grid) + 1 < old(self).grid.columns ==> {
                let cursor = final(self).grid.cursor;
                let line = print_line(old(self).grid);
                let column = print_column(old(self).grid);
                &&& final(self).grid.row(line).cells@[column + 1].wide_char_spacer
                &&& cursor.point.line.0 == line
                &&& if column + 2 < old(self).grid.columns {
                    cursor.point.column.0 == column + 2 && !cursor.input_needs_wrap
                } else {
                    cursor.point.column.0 == column + 1 && cursor.input_needs_wrap
                }
            },
            wide && print_column(old(self).grid) + 1 >= old(self).grid.columns ==> {
                let cursor = final(self).grid.cursor;
                let line = print_line(old(self).grid);
                &&& cursor.point.line.0 == if line + 1 < old(self).grid.screen_lines {
                    line + 1
                } else {
                    line
                }
                &&& cursor.point.column.0 == 2 && !cursor.input_needs_wrap || old(self).grid.columns
                    == 2 && cursor.point.column.0 == 1 && cursor.input_needs_wrap
            },
            // Without a wrap, only the written cells, and the halves of wide characters they
            // overwrite, change.
            !print_wraps(old(self).grid, wide) ==> marks_unchanged(final(self).grid, old(self).grid)
                && printed_at(
                final(self).grid,
                old(self).grid,
                print_line(old(self).grid),
                print_column(old(self).grid),
                c,
                wide,
            ),
            print_wraps(old(self).grid, wide) ==> moved_down_marks(
                final(self).grid,
                old(self).grid,
                old(self).prompt.zone,
                old(self).alt_screen,
            ),
            // A full row wraps into the next one, where the character is printed.
            old(self).grid.cursor.input_needs_wrap ==> exists|w: Grid|
                #[trigger] wrapped_rows(w, old(self).grid) && w.cursor.point.line.0 == print_line(
                    old(self).grid,
                ) && printed_at(final(self).grid, w, print_line(old(self).grid), 0, c, wide),
            // A wide character that does not fit leaves a leading spacer and goes on the next
            // row.
            !old(self).grid.cursor.input_needs_wrap && wide && old(self).grid.cursor.point.column.0
                + 1 >= old(self).grid.columns ==> exists|spaced: Grid, w: Grid|
                #[trigger] written_at(
                    spaced,
                    old(self).grid,
                    old(self).grid.cursor.point.line.0 as int,
                    old(self).grid.cursor.point.column.0 as int,
                    (Cell {
                        c: ' ',
                        wrapline: false,
                        wide_char: false,
                        wide_char_spacer: false,
                        leading_wide_char_spacer: true,
                    }),
                ) && spaced.cursor == old(self).grid.cursor && #[trigger] wrapped_rows(w, spaced)
                    && printed_at(final(self).grid, w, w.cursor.point.line.0 as int, 0, c, true),
    {
        let ghost start = self.grid;
        // Move cursor to next line.
        if self.grid.cursor.input_needs_wrap {
            self.wrapline();
        }
        let ghost wrapped = self.grid;
        let ghost mut spaced = self.grid;
        let ghost mut rewrapped = self.grid;
        let ghost mut placed = self.grid;
        let ghost mut glyph = self.grid;
        let ghost mut shifted = self.grid;
        proof {
            if !start.cursor.input_needs_wrap {
                lemma_same_rows(start, wrapped);
            }
        }

        let plain = Cell {
            c,
            wrapline: false,
            wide_char: false,
            wide_char_spacer: false,
            leading_wide_char_spacer: false,
        };
        if !wide {
            self.write_at_cursor(plain);
            proof {
                if !start.cursor.input_needs_wrap {
                    lemma_marks_unchanged_trans(start, wrapped, self.grid);
                }
            }
        } else {
            if self.grid.cursor.point.column.0 + 1 >= self.grid.columns {
                // Insert placeholder before wide char if glyph does not fit in this row.
                self.write_at_cursor(
                    Cell { c: ' ', leading_wide_char_spacer: true, ..plain },
                );
                proof {
                    spaced = self.grid;
                }
                self.wrapline();
                proof {
                    rewrapped = self.grid;
                    lemma_kept_then_moved(wrapped, spaced, self.grid, self.prompt.zone, self.alt_screen);
                }
            }
            proof {
                placed = self.grid;
            }

            // Write full width glyph to current cursor cell.
            self.write_at_cursor(Cell { wide_char: true, ..plain });
            proof {
                glyph = self.grid;
            }

            // Write spacer to cell following the wide glyph.
            self.grid.cursor.point.column = Column(self.grid.cursor.point.column.0 + 1);
            proof {
                shifted = self.grid;
            }
            self.write_at_cursor(Cell { c: ' ', wide_char_spacer: true, ..plain });
            proof {
                lemma_same_rows(glyph, shifted);
                lemma_marks_unchanged_trans(placed, glyph, shifted);
                lemma_marks_unchanged_trans(placed, shifted, self.grid);
                if start.cursor.input_needs_wrap || wrapped != placed {
                    if wrapped == placed {
                        lemma_moved_then_kept(start, placed, self.grid, self.prompt.zone, self.alt_screen);
                    } else {
                        lemma_moved_then_kept(wrapped, placed, self.grid, self.prompt.zone, self.alt_screen);
                    }
                } else {
                    lemma_marks_unchanged_trans(start, placed, self.grid);
                }
            }
        }
        let ghost written = self.grid;

        if self.grid.cursor.point.column.0 + 1 < self.grid.columns {
            self.grid.cursor.point.column = Column(self.grid.cursor.point.column.0 + 1);
        } else {
            self.grid.cursor.input_needs_wrap = true;
        }
        proof {
            lemma_same_rows(written, self.grid);
            let line = placed.cursor.point.line.0 as int;
            let column = placed.cursor.point.column.0 as int;
            reveal(printed_at);
            if wide {
                lemma_written_at_rows(glyph, shifted, placed, line, column, Cell { wide_char: true, ..plain });
                lemma_written_at_rows(written, self.grid, shifted, line, column + 1, Cell {
                    c: ' ',
                    wide_char_spacer: true,
                    ..plain
                });
                assert(written_at(shifted, placed, line, column, Cell { wide_char: true, ..plain }));
                assert(printed_at(self.grid, placed, line, column, c, wide));
            } else {
                lemma_written_at_rows(written, self.grid, placed, line, column, plain);
                assert(printed_at(self.grid, placed, line, column, c, wide));
            }
            if start.cursor.input_needs_wrap {
                assert(wrapped_rows(wrapped, start));
                assert(placed == wrapped);
                assert(exists|w: Grid|
                    #[trigger] wrapped_rows(w, start) && w.cursor.point.line.0 == line
                        && printed_at(self.grid, w, line, 0, c, wide));
            }
            if !start.cursor.input_needs_wrap && wide && start.cursor.point.column.0 + 1
                >= start.columns {
                assert(written_at(spaced, start, start.cursor.point.line.0 as int,
                    start.cursor.point.column.0 as int, Cell {
                    c: ' ',
                    leading_wide_char_spacer: true,
                    ..plain
                }));
                assert(wrapped_rows(rewrapped, spaced));
                assert(placed == rewrapped);
                assert(spaced.cursor == start.cursor);
                assert(exists|sp: Grid, w: Grid|
                    #[trigger] written_at(
                        sp,
                        start,
                        start.cursor.point.line.0 as int,
                        start.cursor.point.column.0 as int,
                        (Cell {
                            c: ' ',
                            wrapline: false,
                            wide_char: false,
                            wide_char_spacer: false,
                            leading_wide_char_spacer: true,
                        }),
                    ) && sp.cursor == start.cursor && #[trigger] wrapped_rows(w, sp)
                        && printed_at(self.grid, w, w.cursor.point.line.0 as int, 0, c, true));
            }
            if start.cursor.input_needs_wrap || (wide && start.cursor.point.column.0 + 1
                >= start.columns) {
                if !wide {
                    lemma_moved_then_kept(start, wrapped, written, self.prompt.zone, self.alt_screen);
                }
                lemma_moved_then_kept(start, written, self.grid, self.prompt.zone, self.alt_screen);
            } else {
                lemma_marks_unchanged_trans(start, written, self.grid);
            }
        }
    }

    /// Move the cursor to a position, clamped to the screen.
    pub fn goto(&mut self, line: Line, column: Column)
        requires
            old(self).wf(),
        ensures
            final(self).wf(),
            final(self).grid.cursor.point.line.0 == if line.0 < 0 {
                0
            } else if line.0 >= old(self).grid.screen_lines {
                old(self).grid.screen_lines - 1
            } else {
                line.0 as int
            },
            final(self).grid.cursor.point.column.0 == if column.0 >= old(self).grid.columns {
                old(self).grid.columns - 1
            } else {
                column.0 as int
            },
            !final(self).grid.cursor.input_needs_wrap,
            final(self).grid.rows == old(self).grid.rows,
            final(self).prompt == old(self).prompt,
            final(self).alt_screen == old(self).alt_screen,
    {
        let screen_lines = self.grid.screen_lines as i32;
        let line = if line.0 < 0 {
            0
        } else if line.0 >= screen_lines {
            screen_lines - 1
        } else {
            line.0
        };
        let column = if column.0 >= self.grid.columns {
            self.grid.columns - 1
        } else {
            column.0
        };
        self.grid.cursor.point = Point { line: Line(line), column: Column(column) };
        self.grid.cursor.input_needs_wrap = false;
    }

    /// Move the cursor up, stopping at the top of the screen.
    pub fn move_up(&mut self, lines: usize)
        requires
            old(self).wf(),
        ensures
            final(self).wf(),
            final(self).grid.cursor.point.line.0 == if old(self).grid.cursor.point.line.0 >= lines {
                old(self).grid.cursor.point.line.0 - lines
            } else {
                0
            },
            final(self).grid.cursor.point.column == old(self).grid.cursor.point.column,
            final(self).grid.rows == old(self).grid.rows,
            final(self).prompt == old(self).prompt,
    {
        let line = self.grid.cursor.point.line.0;
        let target = if (line as usize) >= lines {
            line - (lines as i32)
        } else {
            0
        };
        let column = self.grid.cursor.point.column;
        self.goto(Line(target), column);
    }
}


impl Term {
    /// Keep the vi mode cursor inside the grid: above the scrollback it moves to the topmost line,
    /// below the screen to the end of the bottom line.
    fn clamp_vi_cursor(&mut self)
        requires
            old(self).grid.wf(),
            old(self).grid.columns >= 1,
        ensures
            final(self).grid == old(self).grid,
            final(self).inactive_grid == old(self).inactive_grid,
            final(self).alt_screen == old(self).alt_screen,
            final(self).prompt == old(self).prompt,
            final(self).vi_mode == old(self).vi_mode,
            final(self).fully_damaged == old(self).fully_damaged,
            final(self).grid.has_line(final(self).vi_mode_cursor.point.line.0 as int),
            final(self).vi_mode_cursor.point.column.0 < final(self).grid.columns,
            old(self).grid.has_line(old(self).vi_mode_cursor.point.line.0 as int)
                && old(self).vi_mode_cursor.point.column.0 < old(self).grid.columns
                ==> final(self).vi_mode_cursor == old(self).vi_mode_cursor,
    {
        let topmost = self.grid.topmost_line();
        let bottommost = self.grid.bottommost_line();
        let last_column = self.grid.columns - 1;
        let point = self.vi_mode_cursor.point;
        if point.line.0 < topmost.0 {
            self.vi_mode_cursor.point = Point { line: topmost, column: Column(0) };
        } else if point.line.0 > bottommost.0 {
            self.vi_mode_cursor.point = Point { line: bottommost, column: Column(last_column) };
        } else if point.column.0 > last_column {
            self.vi_mode_cursor.point = Point { line: point.line, column: Column(last_column) };
        }
    }

    /// Erase in display.
    pub fn clear_screen(&mut self, mode: ClearMode)
        requires
            old(self).wf(),
        ensures
            final(self).wf(),
            final(self).prompt == old(self).prompt,
            final(self).alt_screen == old(self).alt_screen,
            final(self).grid.cursor == old(self).grid.cursor,
            final(self).grid.columns == old(self).grid.columns,
            final(self).grid.screen_lines == old(self).grid.screen_lines,
            final(self).fully_damaged,
            mode == ClearMode::Below ==> {
                let line = old(self).grid.cursor.point.line.0 as int;
                let column = old(self).grid.cursor.point.column.0 as int;
                &&& final(self).grid.history() == old(self).grid.history()
                &&& final(self).grid.mark(line) == old(self).grid.mark(line)
                &&& final(self).grid.row(line).cells@ == old(self).grid.row(line).cells@.subrange(
                    0,
                    column,
                ) + crate::grid::blank_cells((old(self).grid.columns - column) as nat)
                &&& forall|l: int|
                    line < l < final(self).grid.screen_lines ==> blank_row(
                        #[trigger] final(self).grid.row(l),
                        final(self).grid.columns as nat,
                    )
                &&& forall|l: int|
                    final(self).grid.has_line(l) && l < line ==> #[trigger] final(self).grid.row(l)
                        == old(self).grid.row(l)
            },
            mode == ClearMode::All ==> forall|l: int|
                0 <= l < final(self).grid.screen_lines ==> blank_row(
                    #[trigger] final(self).grid.row(l),
                    final(self).grid.columns as nat,
                ),
            mode == ClearMode::All && !old(self).alt_screen ==> forall|l: int|
                final(self).grid.has_line(l) && l < 0 ==> #[trigger] final(self).grid.row(l)
                    == old(self).grid.row(l + old(self).grid.cleared_rows()),
            mode == ClearMode::All && old(self).alt_screen ==> final(self).grid.history()
                == old(self).grid.history(),
            mode == ClearMode::Saved ==> {
                &&& final(self).grid.history() == 0
                &&& forall|l: int|
                    0 <= l < final(self).grid.screen_lines ==> #[trigger] final(self).grid.row(l)
                        == old(self).grid.row(l)
            },
    {
        match mode {
            ClearMode::Below => {
                let cursor = self.grid.cursor.point;
                self.grid.clear_row_from(cursor.line, cursor.column);
                let screen_lines = self.grid.screen_lines as i32;
                if cursor.line.0 < screen_lines - 1 {
                    self.grid.reset_region(Line(cursor.line.0 + 1), Line(screen_lines));
                }
            },
            ClearMode::All => {
                if self.alt_screen {
                    let screen_lines = self.grid.screen_lines as i32;
                    self.grid.reset_region(Line(0), Line(screen_lines));
                } else {
                    let old_offset = self.grid.display_offset;
                    self.grid.clear_viewport();

                    // Move the vi mode cursor by the number of lines scrolled.
                    let lines = if self.grid.display_offset > old_offset {
                        self.grid.display_offset - old_offset
                    } else {
                        0
                    };
                    let line = self.vi_mode_cursor.point.line.0;
                    self.vi_mode_cursor.point.line = Line(line - (lines as i32));
                    self.clamp_vi_cursor();
                }
            },
            ClearMode::Saved => {
                if self.grid.history_size() > 0 {
                    self.grid.clear_history();
                    if self.vi_mode_cursor.point.line.0 < 0 {
                        self.vi_mode_cursor.point = Point { line: Line(0), column: Column(0) };
                    }
                }
            },
        }
        self.fully_damaged = true;
    }

    /// Switch between the primary and the alternate screen. Entering the alternate screen blanks
    /// it and starts it with the cursor of the primary screen.
    pub fn swap_alt(&mut self)
        requires
            old(self).wf(),
        ensures
            final(self).wf(),
            final(self).alt_screen == !old(self).alt_screen,
            final(self).primary() == old(self).primary(),
            final(self).prompt == old(self).prompt,
    {
        if !self.alt_screen {
            // Set alt screen cursor to the current primary screen cursor.
            self.inactive_grid.cursor = self.grid.cursor;

            // Reset alternate screen contents.
            let screen_lines = self.inactive_grid.screen_lines as i32;
            self.inactive_grid.reset_region(Line(0), Line(screen_lines));
        }

        std::mem::swap(&mut self.grid, &mut self.inactive_grid);
        self.alt_screen = !self.alt_screen;
        self.clamp_vi_cursor();
        self.fully_damaged = true;
    }

    /// Enter (`on`) or leave the alternate screen; nothing happens when it already is so.
    pub fn set_alternate_screen(&mut self, on: bool)
        requires
            old(self).wf(),
        ensures
            final(self).wf(),
            final(self).alt_screen == on,
            final(self).primary() == old(self).primary(),
            final(self).prompt == old(self).prompt,
    {
        if on != self.alt_screen {
            self.swap_alt();
        }
    }

    /// Full reset: both screens blank, empty scrollback, primary screen, no marker seen.
    pub fn reset_state(&mut self)
        requires
            old(self).wf(),
        ensures
            final(self).wf(),
            !final(self).alt_screen,
            final(self).prompt == PromptState::initial(),
            final(self).vi_mode == old(self).vi_mode,
            final(self).grid.history() == 0,
            forall|l: int|
                final(self).grid.has_line(l) ==> blank_row(
                    #[trigger] final(self).grid.row(l),
                    final(self).grid.columns as nat,
                ),
    {
        if self.alt_screen {
            std::mem::swap(&mut self.grid, &mut self.inactive_grid);
        }
        self.alt_screen = false;
        self.grid.reset();
        self.inactive_grid.reset();
        self.vi_mode_cursor = ViModeCursor { point: Point { line: Line(0), column: Column(0) } };
        self.prompt = PromptState::default();
        self.fully_damaged = true;
    }
}


impl Term {
    /// Scroll the viewport by `lines` into the scrollback (positive) or back towards the screen
    /// (negative), within the scrollback, keeping the vi mode cursor inside the viewport.
    pub fn scroll_display(&mut self, lines: i32)
        requires
            old(self).wf(),
        ensures
            final(self).wf(),
            final(self).grid.rows == old(self).grid.rows,
            final(self).grid.cursor == old(self).grid.cursor,
            final(self).grid.screen_lines == old(self).grid.screen_lines,
            final(self).grid.columns == old(self).grid.columns,
            final(self).prompt == old(self).prompt,
            final(self).alt_screen == old(self).alt_screen,
            final(self).vi_mode == old(self).vi_mode,
            final(self).grid.display_offset == if old(self).grid.display_offset + lines < 0 {
                0
            } else if old(self).grid.display_offset + lines > old(self).grid.history() {
                old(self).grid.history()
            } else {
                old(self).grid.display_offset + lines
            },
            ({
                let start = -final(self).grid.display_offset;
                let end = start + final(self).grid.screen_lines - 1;
                let line = old(self).vi_mode_cursor.point.line.0 as int;
                final(self).vi_mode_cursor.point.column == old(self).vi_mode_cursor.point.column
                    && final(self).vi_mode_cursor.point.line.0 == if line < start {
                    start
                } else if line > end {
                    end
                } else {
                    line
                }
            }),
    {
        let history = self.grid.history_size() as i64;
        let target = (self.grid.display_offset as i64) + (lines as i64);
        let offset = if target < 0 {
            0
        } else if target > history {
            history
        } else {
            target
        };
        self.grid.display_offset = offset as usize;

        // Clamp vi mode cursor to the viewport.
        let viewport_start = 0 - (self.grid.display_offset as i32);
        let viewport_end = viewport_start + ((self.grid.screen_lines - 1) as i32);
        let line = self.vi_mode_cursor.point.line.0;
        let clamped = if line < viewport_start {
            viewport_start
        } else if line > viewport_end {
            viewport_end
        } else {
            line
        };
        self.vi_mode_cursor.point.line = Line(clamped);
        self.fully_damaged = true;
    }

    /// Scroll the viewport just far enough to show a line.
    pub fn scroll_to_point(&mut self, point: Point)
        requires
            old(self).wf(),
            old(self).grid.has_line(point.line.0 as int),
        ensures
            final(self).wf(),
            final(self).grid.rows == old(self).grid.rows,
            final(self).grid.cursor == old(self).grid.cursor,
            final(self).grid.screen_lines == old(self).grid.screen_lines,
            final(self).grid.columns == old(self).grid.columns,
            final(self).prompt == old(self).prompt,
            final(self).alt_screen == old(self).alt_screen,
            final(self).vi_mode == old(self).vi_mode,
            old(self).vi_mode_cursor.point == point ==> final(self).vi_mode_cursor == old(
                self,
            ).vi_mode_cursor,
            final(self).grid.display_offset == if point.line.0 < -old(self).grid.display_offset {
                -point.line.0
            } else if point.line.0 >= old(self).grid.screen_lines - old(self).grid.display_offset {
                old(self).grid.screen_lines - point.line.0 - 1
            } else {
                old(self).grid.display_offset as int
            },
    {
        let display_offset = self.grid.display_offset as i32;
        let screen_lines = self.grid.screen_lines as i32;
        let ghost vi = self.vi_mode_cursor;
        if point.line.0 < -display_offset {
            let lines = point.line.0 + display_offset;
            self.scroll_display(-lines);
        } else if point.line.0 >= screen_lines - display_offset {
            let lines = point.line.0 + display_offset + 1 - screen_lines;
            self.scroll_display(-lines);
        }
        proof {
            if vi.point == point {
                let start = -self.grid.display_offset;
                assert(start <= point.line.0);
                assert(point.line.0 <= start + self.grid.screen_lines - 1);
                assert(self.vi_mode_cursor.point.line.0 == vi.point.line.0);
                assert(self.vi_mode_cursor.point.line == vi.point.line);
                assert(self.vi_mode_cursor.point == vi.point);
            }
        }
    }

    /// Enter or leave the vi mode. Entering puts the vi mode cursor on the terminal cursor, or at
    /// the top of the viewport when the terminal cursor is below it.
    pub fn toggle_vi_mode(&mut self)
        requires
            old(self).wf(),
        ensures
            final(self).wf(),
            final(self).vi_mode == !old(self).vi_mode,
            final(self).grid == old(self).grid,
            final(self).prompt == old(self).prompt,
            final(self).alt_screen == old(self).alt_screen,
    {
        self.vi_mode = !self.vi_mode;
        if self.vi_mode {
            let display_offset = self.grid.display_offset as i32;
            let bottommost = (self.grid.screen_lines - 1) as i32;
            if self.grid.cursor.point.line.0 > bottommost - display_offset {
                // Move cursor to top-left if terminal cursor is not visible.
                self.vi_mode_cursor.point = Point { line: Line(-display_offset), column: Column(0) };
            } else {
                // Reset vi mode cursor position to match primary cursor.
                self.vi_mode_cursor.point = self.grid.cursor.point;
            }
        }
    }

    /// What a vi prompt motion makes of `old`: nothing outside vi mode; in vi mode the vi cursor
    /// moves to the start of the nearest prompt row above (`PromptUp`) or below (`PromptDown`),
    /// or stays without one, and the viewport scrolls just far enough to show its row.
    pub open spec fn vi_moved(new: Term, old: Term, motion: ViMotion) -> bool {
        &&& new.wf()
        &&& new.grid.rows == old.grid.rows
        &&& new.prompt == old.prompt
        &&& !old.vi_mode ==> new == old
        &&& old.vi_mode ==> {
            let from = old.vi_mode_cursor.point;
            let direction = match motion {
                ViMotion::PromptUp => Direction::Left,
                ViMotion::PromptDown => Direction::Right,
            };
            let target = match crate::prompt::nearest_prompt(
                old.grid,
                from.line.0 as int,
                direction,
            ) {
                Some(line) => Point { line: Line(line as i32), column: Column(0) },
                None => from,
            };
            let offset = old.grid.display_offset as int;
            let t = target.line.0 as int;
            &&& new.vi_mode_cursor.point == target
            &&& new.grid.screen_lines == old.grid.screen_lines
            &&& new.grid.display_offset == if t < -offset {
                -t
            } else if t >= old.grid.screen_lines - offset {
                old.grid.screen_lines - t - 1
            } else {
                offset
            }
        }
    }

    /// Move the vi mode cursor to the first column of the previous or next prompt row and scroll
    /// the viewport to show it. Without such a row, or outside the vi mode, nothing moves.
    pub fn vi_motion(&mut self, motion: ViMotion)
        requires
            old(self).wf(),
        ensures
            final(self).wf(),
            final(self).grid.rows == old(self).grid.rows,
            final(self).prompt == old(self).prompt,
            Term::vi_moved(*final(self), *old(self), motion),
    {
        if !self.vi_mode {
            return;
        }

        let from = self.vi_mode_cursor.point;
        let direction = match motion {
            ViMotion::PromptUp => Direction::Left,
            ViMotion::PromptDown => Direction::Right,
        };
        let point = match self.find_prompt(from.line, direction) {
            Some(line) => Point { line, column: Column(0) },
            None => from,
        };
        self.vi_mode_cursor.point = point;
        self.scroll_to_point(point);
    }
}

} // verus!

verus! {

/// How far apart two offsets are.
pub open spec fn distance(a: int, b: int) -> int {
    if a >= b {
        a - b
    } else {
        b - a
    }
}

/// A vi prompt motion scrolls the viewport just far enough to show the row it moves to: not at
/// all when the row is already shown, and otherwise by no more than any other scroll that shows
/// it.
pub proof fn lemma_vi_motion_least_scroll(old: Term, new: Term, motion: ViMotion)
    requires
        old.wf(),
        old.vi_mode,
        Term::vi_moved(new, old, motion),
    ensures
        ({
            let t = new.vi_mode_cursor.point.line.0 as int;
            let before = old.grid.display_offset as int;
            let after = new.grid.display_offset as int;
            let lines = old.grid.screen_lines as int;
            &&& -after <= t < lines - after
            &&& -before <= t < lines - before ==> after == before
            &&& forall|other: int|
                -other <= t < lines - other ==> #[trigger] distance(other, before) >= distance(
                    after,
                    before,
                )
        }),
{
}

} // verus!
