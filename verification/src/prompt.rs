//! OSC 133 prompt marks and shell state.

use vstd::prelude::*;

use crate::grid::{all_empty, blank_row, is_prompt_mark, Cell, Grid, RowMark};
use crate::index::{Column, Direction, Line};
use crate::term::Term;

verus! {

/// Part of the prompt cycle the shell is in.
#[derive(Debug, Clone, Copy, PartialEq, Eq, Structural)]
pub enum PromptZone {
    /// The shell is drawing its prompt.
    Prompt,
    /// The shell is reading user input.
    Input,
    /// A command is running, or no marker was received yet.
    Output,
}

impl Default for PromptZone {
    fn default() -> (zone: PromptZone)
        ensures
            zone == PromptZone::Output,
    {
        PromptZone::Output
    }
}

/// How the shell repaints its prompt after a resize (`redraw=` option of the prompt start marker).
#[derive(Debug, Clone, Copy, PartialEq, Eq, Structural)]
pub enum PromptRedraw {
    /// The shell repaints nothing (`redraw=0`).
    Nothing,
    /// The shell repaints the last line of its prompt (`redraw=last`).
    LastLine,
    /// The shell repaints its whole prompt (the default).
    Full,
}

impl Default for PromptRedraw {
    fn default() -> (redraw: PromptRedraw)
        ensures
            redraw == PromptRedraw::Full,
    {
        PromptRedraw::Full
    }
}

/// Whether a prompt start marker begins a primary prompt or a secondary one (`k=s`).
#[derive(Debug, Clone, Copy, PartialEq, Eq, Structural)]
pub enum PromptKind {
    Primary,
    Continuation,
}

/// Settings carried by the `A` and `N` prompt start markers.
#[derive(Debug, Clone, Copy, PartialEq, Eq, Structural)]
pub struct PromptOptions {
    pub redraw: PromptRedraw,
    pub click_events: Option<u8>,
}

/// A prompt start marker.
#[derive(Debug, Clone, Copy, PartialEq, Eq, Structural)]
pub struct PromptStart {
    pub kind: PromptKind,
    /// Present on `A` and `N` markers only.
    pub options: Option<PromptOptions>,
}

/// Shell state reported through OSC 133 markers.
#[derive(Debug, Clone, Copy, PartialEq, Eq, Structural)]
pub struct PromptState {
    /// Whether any marker was received since the last reset.
    pub seen: bool,
    /// Current zone of the prompt cycle.
    pub zone: PromptZone,
    /// How the shell repaints its prompt after a resize.
    pub redraw: PromptRedraw,
    /// Mouse click reporting accepted by the shell at its prompt.
    pub click_events: Option<u8>,
}

impl PromptState {
    /// The state before any marker: no marker seen, in the output zone, full redraw.
    pub open spec fn initial() -> PromptState {
        PromptState {
            seen: false,
            zone: PromptZone::Output,
            redraw: PromptRedraw::Full,
            click_events: None,
        }
    }
}

impl Default for PromptState {
    fn default() -> (state: PromptState)
        ensures
            state == PromptState::initial(),
    {
        PromptState {
            seen: false,
            zone: PromptZone::Output,
            redraw: PromptRedraw::Full,
            click_events: None,
        }
    }
}

/// The lowest prompt row among lines `lo..hi`.
pub open spec fn last_prompt(g: Grid, lo: int, hi: int) -> Option<int>
    decreases hi - lo,
{
    if hi <= lo {
        None
    } else if g.mark(hi - 1) == RowMark::Prompt {
        Some(hi - 1)
    } else {
        last_prompt(g, lo, hi - 1)
    }
}

/// The highest prompt row among lines `lo..hi`.
pub open spec fn first_prompt(g: Grid, lo: int, hi: int) -> Option<int>
    decreases hi - lo,
{
    if hi <= lo {
        None
    } else if g.mark(lo) == RowMark::Prompt {
        Some(lo)
    } else {
        first_prompt(g, lo + 1, hi)
    }
}

pub open spec fn min_int(a: int, b: int) -> int {
    if a <= b {
        a
    } else {
        b
    }
}

pub open spec fn max_int(a: int, b: int) -> int {
    if a >= b {
        a
    } else {
        b
    }
}

/// Nearest prompt row strictly above (`Left`) or below (`Right`) line `from`, in the grid.
pub open spec fn nearest_prompt(g: Grid, from: int, direction: Direction) -> Option<int> {
    match direction {
        Direction::Left => last_prompt(g, g.topmost(), min_int(from, g.bottommost() + 1)),
        Direction::Right => first_prompt(g, max_int(from + 1, g.topmost()), g.bottommost() + 1),
    }
}

/// The line numbers of an optional line.
pub open spec fn line_number(line: Option<Line>) -> Option<int> {
    match line {
        Some(l) => Some(l.0 as int),
        None => None,
    }
}

/// First line at or after `line` that is not a row of a prompt after its first row.
pub open spec fn after_prompt_rows(g: Grid, line: int) -> int
    decreases g.bottommost() + 1 - line,
{
    if line <= g.bottommost() && (g.mark(line) == RowMark::PromptSecondary || g.mark(line)
        == RowMark::PromptContinuation) {
        after_prompt_rows(g, line + 1)
    } else {
        line
    }
}

/// Last line at or above `end` that is not an empty row, or `start - 1` when lines
/// `start..=end` are all empty.
pub open spec fn before_empty_rows(g: Grid, start: int, end: int) -> int
    decreases end - start + 1,
{
    if end >= start && g.clear_at(end) {
        before_empty_rows(g, start, end - 1)
    } else {
        end
    }
}

/// The prompt row of the command whose output contains or follows `line`, or the topmost line
/// when no prompt row lies at or above it.
pub open spec fn command_anchor(g: Grid, line: int) -> int {
    match nearest_prompt(g, line + 1, Direction::Left) {
        Some(p) => p,
        None => g.topmost(),
    }
}

/// First row of the command output which contains or follows `line`.
pub open spec fn output_start(g: Grid, line: int) -> int {
    let anchor = command_anchor(g, line);
    after_prompt_rows(
        g,
        if g.mark(anchor) == RowMark::Prompt {
            anchor + 1
        } else {
            anchor
        },
    )
}

/// Last row of the command output which starts at `start`, before trailing empty rows.
pub open spec fn output_end(g: Grid, start: int) -> int {
    let end = match nearest_prompt(g, start - 1, Direction::Right) {
        Some(next) => next - 1,
        None => g.bottommost(),
    };
    before_empty_rows(g, start, end)
}

/// First and last row of the command output which contains or follows `line`.
pub open spec fn output_bounds_of(g: Grid, line: int) -> Option<(int, int)> {
    let start = output_start(g, line);
    let end = output_end(g, start);
    if start <= end {
        Some((start, end))
    } else {
        None
    }
}

/// The line numbers of optional bounds.
pub open spec fn bounds_numbers(bounds: Option<(Line, Line)>) -> Option<(int, int)> {
    match bounds {
        Some((s, e)) => Some((s.0 as int, e.0 as int)),
        None => None,
    }
}

/// `new` is `old` with the mark of `line` replaced by `mark`.
pub open spec fn remarked(new: Grid, old: Grid, line: int, mark: RowMark) -> bool {
    &&& new.same_frame(old)
    &&& new.row(line).cells == old.row(line).cells
    &&& new.mark(line) == mark
    &&& forall|l: int| new.has_line(l) && l != line ==> #[trigger] new.row(l) == old.row(l)
}

/// Top row of the prompt that continues onto `line`: the first row above it, up to the top of the
/// screen, which does not continue a prompt.
pub open spec fn continued_from(g: Grid, line: int) -> int
    decreases line,
{
    if line > 0 && g.mark(line) == RowMark::PromptContinuation {
        continued_from(g, line - 1)
    } else {
        line
    }
}

impl Term {
    /// The shell is drawing its prompt or reading input on the primary screen.
    pub open spec fn at_prompt(&self) -> bool {
        !self.alt_screen && self.prompt.seen && self.prompt.zone != PromptZone::Output
    }

    /// Everything but the active grid and the prompt state is that of `old`.
    pub open spec fn same_but_grid_and_prompt(&self, old: Term) -> bool {
        &&& self.inactive_grid == old.inactive_grid
        &&& self.alt_screen == old.alt_screen
        &&& self.vi_mode == old.vi_mode
        &&& self.vi_mode_cursor == old.vi_mode_cursor
        &&& self.fully_damaged == old.fully_damaged
    }

    /// First row that a redraw of the prompt clears, when the shell repaints its whole prompt:
    /// the active primary or secondary prompt, or the cursor row without one.
    pub open spec fn full_redraw_start(&self) -> int {
        let cursor = self.grid.cursor.point.line.0 as int;
        let top = continued_from(self.grid, cursor);
        if is_prompt_mark(self.grid.mark(top)) || top == cursor {
            top
        } else {
            top + 1
        }
    }

    /// Lines `start..end` that a redraw of the prompt clears.
    pub open spec fn redraw_region(&self) -> (int, int) {
        let cursor = self.grid.cursor.point.line.0 as int;
        match self.prompt.redraw {
            PromptRedraw::Full => (self.full_redraw_start(), self.grid.screen_lines as int),
            PromptRedraw::LastLine => (cursor, cursor + 1),
            PromptRedraw::Nothing => (cursor, cursor),
        }
    }
}

/// `last_prompt` is a prompt row in range with no prompt row below it in range, or there is no
/// prompt row in range.
pub proof fn lemma_last_prompt(g: Grid, lo: int, hi: int)
    ensures
        match last_prompt(g, lo, hi) {
            Some(p) => lo <= p < hi && g.mark(p) == RowMark::Prompt && forall|k: int|
                p < k < hi ==> #[trigger] g.mark(k) != RowMark::Prompt,
            None => forall|k: int| lo <= k < hi ==> #[trigger] g.mark(k) != RowMark::Prompt,
        },
    decreases hi - lo,
{
    if hi > lo && g.mark(hi - 1) != RowMark::Prompt {
        lemma_last_prompt(g, lo, hi - 1);
    }
}

/// `first_prompt` is a prompt row in range with no prompt row above it in range, or there is no
/// prompt row in range.
pub proof fn lemma_first_prompt(g: Grid, lo: int, hi: int)
    ensures
        match first_prompt(g, lo, hi) {
            Some(p) => lo <= p < hi && g.mark(p) == RowMark::Prompt && forall|k: int|
                lo <= k < p ==> #[trigger] g.mark(k) != RowMark::Prompt,
            None => forall|k: int| lo <= k < hi ==> #[trigger] g.mark(k) != RowMark::Prompt,
        },
    decreases hi - lo,
{
    if hi > lo && g.mark(lo) != RowMark::Prompt {
        lemma_first_prompt(g, lo + 1, hi);
    }
}

impl Term {
    /// Shell state reported through OSC 133.
    pub fn prompt_state(&self) -> (state: PromptState)
        ensures
            state == self.prompt,
    {
        self.prompt
    }

    /// Whether the shell is drawing its prompt or reading input on the primary screen.
    ///
    /// This is `false` until the shell reports a marker.
    pub fn cursor_at_prompt(&self) -> (r: bool)
        ensures
            r == self.at_prompt(),
            r ==> self.prompt.seen,
    {
        !self.alt_screen && self.prompt.seen && self.prompt.zone != PromptZone::Output
    }

    /// OSC 133 marker of a row.
    pub fn row_mark(&self, line: Line) -> (mark: RowMark)
        requires
            self.wf(),
            self.grid.has_line(line.0 as int),
        ensures
            mark == self.grid.mark(line.0 as int),
    {
        self.grid.mark_at(line)
    }

    /// Nearest prompt row strictly above (`Left`) or below (`Right`) a line.
    pub fn find_prompt(&self, from: Line, direction: Direction) -> (r: Option<Line>)
        requires
            self.wf(),
            direction == Direction::Right ==> from.0 < i32::MAX,
        ensures
            line_number(r) == nearest_prompt(self.grid, from.0 as int, direction),
            r matches Some(p) ==> {
                &&& self.grid.has_line(p.0 as int)
                &&& self.grid.mark(p.0 as int) == RowMark::Prompt
                &&& direction == Direction::Left ==> p.0 < from.0 && forall|k: int|
                    p.0 < k < from.0 && k <= self.grid.bottommost() ==> #[trigger] self.grid.mark(k)
                        != RowMark::Prompt
                &&& direction == Direction::Right ==> p.0 > from.0 && forall|k: int|
                    from.0 < k < p.0 && k >= self.grid.topmost() ==> #[trigger] self.grid.mark(k)
                        != RowMark::Prompt
            },
            r is None ==> forall|k: int|
                #![trigger self.grid.mark(k)]
                self.grid.has_line(k) && (if direction == Direction::Left {
                    k < from.0
                } else {
                    k > from.0
                }) ==> self.grid.mark(k) != RowMark::Prompt,
    {
        let topmost = self.topmost_line().0;
        let bottommost = self.bottommost_line().0;
        let ghost g = self.grid;
        match direction {
            Direction::Left => {
                let hi: i32 = if from.0 <= bottommost + 1 {
                    from.0
                } else {
                    bottommost + 1
                };
                proof {
                    lemma_last_prompt(g, topmost as int, hi as int);
                }
                let mut line: i32 = hi;
                while line > topmost
                    invariant
                        self.wf(),
                        g == self.grid,
                        direction == Direction::Left,
                        topmost == g.topmost(),
                        bottommost == g.bottommost(),
                        hi == min_int(from.0 as int, bottommost + 1),
                        match last_prompt(g, topmost as int, hi as int) {
                            Some(p) => topmost <= p < hi && g.mark(p) == RowMark::Prompt
                                && forall|k: int| p < k < hi ==> #[trigger] g.mark(k) != RowMark::Prompt,
                            None => forall|k: int|
                                topmost <= k < hi ==> #[trigger] g.mark(k) != RowMark::Prompt,
                        },
                        topmost <= line <= hi || (line == hi && hi < topmost),
                        last_prompt(g, topmost as int, hi as int) == last_prompt(
                            g,
                            topmost as int,
                            line as int,
                        ),
                    decreases line - topmost,
                {
                    line = line - 1;
                    if self.grid.mark_at(Line(line)) == RowMark::Prompt {
                        return Some(Line(line));
                    }
                }
                None
            },
            Direction::Right => {
                let lo: i32 = if from.0 + 1 >= topmost {
                    from.0 + 1
                } else {
                    topmost
                };
                proof {
                    lemma_first_prompt(g, lo as int, bottommost + 1);
                }
                let mut line: i32 = lo;
                while line <= bottommost
                    invariant
                        self.wf(),
                        g == self.grid,
                        direction == Direction::Right,
                        lo == max_int(from.0 + 1, topmost as int),
                        match first_prompt(g, lo as int, bottommost + 1) {
                            Some(p) => lo <= p < bottommost + 1 && g.mark(p) == RowMark::Prompt
                                && forall|k: int| lo <= k < p ==> #[trigger] g.mark(k) != RowMark::Prompt,
                            None => forall|k: int|
                                lo <= k < bottommost + 1 ==> #[trigger] g.mark(k) != RowMark::Prompt,
                        },
                        topmost == g.topmost(),
                        bottommost == g.bottommost(),
                        topmost <= lo <= line,
                        first_prompt(g, lo as int, bottommost + 1) == first_prompt(
                            g,
                            line as int,
                            bottommost + 1,
                        ),
                    decreases bottommost + 1 - line,
                {
                    if self.grid.mark_at(Line(line)) == RowMark::Prompt {
                        return Some(Line(line));
                    }
                    line = line + 1;
                }
                None
            },
        }
    }
}


/// The rows that `after_prompt_rows` skips are secondary or continued prompt rows on the grid.
pub proof fn lemma_after_prompt_rows(g: Grid, line: int)
    ensures
        line <= after_prompt_rows(g, line),
        after_prompt_rows(g, line) <= g.bottommost() + 1 || after_prompt_rows(g, line) == line,
        forall|k: int|
            line <= k < after_prompt_rows(g, line) ==> k <= g.bottommost() && (#[trigger] g.mark(k)
                == RowMark::PromptSecondary || g.mark(k) == RowMark::PromptContinuation),
        after_prompt_rows(g, line) <= g.bottommost() ==> g.mark(after_prompt_rows(g, line))
            != RowMark::PromptSecondary && g.mark(after_prompt_rows(g, line))
            != RowMark::PromptContinuation,
    decreases g.bottommost() + 1 - line,
{
    if line <= g.bottommost() && (g.mark(line) == RowMark::PromptSecondary || g.mark(line)
        == RowMark::PromptContinuation) {
        lemma_after_prompt_rows(g, line + 1);
    }
}

/// The rows that `before_empty_rows` drops are empty, and the row it stops at is not.
pub proof fn lemma_before_empty_rows(g: Grid, start: int, end: int)
    ensures
        before_empty_rows(g, start, end) <= end,
        before_empty_rows(g, start, end) >= start - 1 || before_empty_rows(g, start, end) == end,
        forall|k: int| before_empty_rows(g, start, end) < k <= end ==> #[trigger] g.clear_at(k),
        before_empty_rows(g, start, end) >= start ==> !g.clear_at(before_empty_rows(g, start, end)),
    decreases end - start + 1,
{
    if end >= start && g.clear_at(end) {
        lemma_before_empty_rows(g, start, end - 1);
    }
}

impl Term {
    /// First and last row of the command output which contains or follows a line.
    ///
    /// The output starts after the prompt and its continuation rows and ends before the next
    /// prompt, without trailing empty rows. Rows above the first prompt count as output.
    pub fn output_bounds(&self, line: Line) -> (r: Option<(Line, Line)>)
        requires
            self.wf(),
            line.0 < i32::MAX,
        ensures
            bounds_numbers(r) == output_bounds_of(self.grid, line.0 as int),
            r matches Some((s, e)) ==> {
                &&& self.grid.topmost() <= s.0 <= e.0 <= self.grid.bottommost()
                &&& !self.grid.clear_at(e.0 as int)
                &&& forall|k: int| s.0 <= k <= e.0 ==> #[trigger] self.grid.mark(k) != RowMark::Prompt
            },
    {
        let ghost g = self.grid;
        let topmost = self.topmost_line();
        let bottommost = self.bottommost_line();

        // Skip the prompt which starts the command and its continuation rows.
        let prompt = match self.find_prompt(Line(line.0 + 1), Direction::Left) {
            Some(p) => p,
            None => topmost,
        };
        let mut start = if self.grid.mark_at(prompt) == RowMark::Prompt {
            Line(prompt.0 + 1)
        } else {
            prompt
        };
        let ghost first = start.0 as int;
        proof {
            lemma_after_prompt_rows(g, first);
        }
        while start.0 <= bottommost.0 && (self.grid.mark_at(start) == RowMark::PromptSecondary
            || self.grid.mark_at(start) == RowMark::PromptContinuation)
            invariant
                self.wf(),
                g == self.grid,
                topmost.0 == g.topmost(),
                bottommost.0 == g.bottommost(),
                topmost.0 <= first <= start.0 <= bottommost.0 + 1,
                after_prompt_rows(g, first) == after_prompt_rows(g, start.0 as int),
            decreases bottommost.0 + 1 - start.0,
        {
            start = Line(start.0 + 1);
        }
        assert(start.0 == output_start(g, line.0 as int));

        // Stop before the next prompt and drop trailing empty rows.
        let next_prompt = self.find_prompt(Line(start.0 - 1), Direction::Right);
        let mut end = match next_prompt {
            Some(next) => Line(next.0 - 1),
            None => bottommost,
        };
        let ghost last = end.0 as int;
        proof {
            lemma_before_empty_rows(g, start.0 as int, last);
            lemma_first_prompt(g, start.0 as int, g.bottommost() + 1);
        }
        while end.0 >= start.0 && self.grid.is_clear_at(end)
            invariant
                self.wf(),
                g == self.grid,
                topmost.0 <= start.0,
                end.0 <= last <= bottommost.0,
                topmost.0 == g.topmost(),
                bottommost.0 == g.bottommost(),
                end.0 >= start.0 - 1,
                before_empty_rows(g, start.0 as int, last) == before_empty_rows(
                    g,
                    start.0 as int,
                    end.0 as int,
                ),
            decreases end.0 - start.0 + 1,
        {
            end = Line(end.0 - 1);
        }
        if start.0 <= end.0 {
            Some((start, end))
        } else {
            None
        }
    }
}


impl Term {
    /// Handle a prompt start marker.
    pub fn mark_prompt_start(&mut self, prompt: PromptStart)
        requires
            old(self).wf(),
        ensures
            final(self).wf(),
            old(self).alt_screen ==> *final(self) == *old(self),
            !old(self).alt_screen ==> {
                &&& remarked(
                    final(self).grid,
                    old(self).grid,
                    old(self).grid.cursor.point.line.0 as int,
                    match prompt.kind {
                        PromptKind::Primary => RowMark::Prompt,
                        PromptKind::Continuation => RowMark::PromptSecondary,
                    },
                )
                &&& final(self).same_but_grid_and_prompt(*old(self))
                &&& final(self).prompt.seen
                &&& final(self).prompt.zone == PromptZone::Prompt
                &&& final(self).prompt.redraw == match prompt.options {
                    Some(options) => options.redraw,
                    None => old(self).prompt.redraw,
                }
                &&& final(self).prompt.click_events == match prompt.options {
                    Some(options) => options.click_events,
                    None => old(self).prompt.click_events,
                }
            },
    {
        if self.alt_screen {
            return;
        }

        let line = self.grid.cursor.point.line;
        let mark = match prompt.kind {
            PromptKind::Primary => RowMark::Prompt,
            PromptKind::Continuation => RowMark::PromptSecondary,
        };
        self.grid.set_mark(line, mark);

        self.prompt.seen = true;
        self.prompt.zone = PromptZone::Prompt;

        // Only `A` and `N` markers carry the resize and click settings.
        if let Some(options) = prompt.options {
            self.prompt.redraw = options.redraw;
            self.prompt.click_events = options.click_events;
        }
    }

    /// Handle a command start or command finished marker.
    pub fn set_prompt_zone(&mut self, zone: PromptZone)
        requires
            old(self).wf(),
        ensures
            final(self).wf(),
            old(self).alt_screen ==> *final(self) == *old(self),
            !old(self).alt_screen ==> *final(self) == (Term {
                prompt: PromptState { seen: true, zone, ..old(self).prompt },
                ..*old(self)
            }),
    {
        if self.alt_screen {
            return;
        }

        self.prompt.seen = true;
        self.prompt.zone = zone;
    }

    /// Handle a command executed marker.
    pub fn mark_command_executed(&mut self)
        requires
            old(self).wf(),
        ensures
            final(self).wf(),
            old(self).alt_screen ==> *final(self) == *old(self),
            !old(self).alt_screen ==> {
                &&& final(self).same_but_grid_and_prompt(*old(self))
                &&& final(self).prompt == (PromptState {
                    seen: true,
                    zone: PromptZone::Output,
                    ..old(self).prompt
                })
                &&& if old(self).grid.cursor.point.column.0 == 0 {
                    remarked(
                        final(self).grid,
                        old(self).grid,
                        old(self).grid.cursor.point.line.0 as int,
                        RowMark::OutputStart,
                    )
                } else {
                    final(self).grid == old(self).grid
                }
            },
    {
        if self.alt_screen {
            return;
        }

        self.prompt.seen = true;
        self.prompt.zone = PromptZone::Output;

        // Output starts on this row when the shell moved to a fresh line before the marker.
        let cursor = self.grid.cursor.point;
        if cursor.column.0 == 0 {
            self.grid.set_mark(cursor.line, RowMark::OutputStart);
        }
    }

    /// Extend the prompt onto the row the cursor moved to by a line feed or a wrap.
    ///
    /// This covers multi-line prompts and wrapped input from shells which do not send `k=s`.
    pub fn inherit_prompt_mark(&mut self)
        requires
            old(self).wf(),
        ensures
            final(self).wf(),
            final(self).same_but_grid_and_prompt(*old(self)),
            final(self).prompt == old(self).prompt,
            ({
                let line = old(self).grid.cursor.point.line.0 as int;
                if old(self).prompt.zone != PromptZone::Output && !old(self).alt_screen
                    && old(self).grid.mark(line) == RowMark::Unmarked {
                    remarked(final(self).grid, old(self).grid, line, RowMark::PromptContinuation)
                } else {
                    final(self).grid == old(self).grid
                }
            }),
    {
        if self.prompt.zone == PromptZone::Output || self.alt_screen {
            return;
        }

        let line = self.grid.cursor.point.line;
        if self.grid.mark_at(line) == RowMark::Unmarked {
            self.grid.set_mark(line, RowMark::PromptContinuation);
        }
    }
}


/// `continued_from` lies on the screen at or above the line, and the rows below it up to the line
/// continue a prompt.
pub proof fn lemma_continued_from(g: Grid, line: int)
    requires
        0 <= line,
    ensures
        0 <= continued_from(g, line) <= line,
        forall|k: int|
            continued_from(g, line) < k <= line ==> #[trigger] g.mark(k)
                == RowMark::PromptContinuation,
        continued_from(g, line) > 0 ==> g.mark(continued_from(g, line))
            != RowMark::PromptContinuation,
    decreases line,
{
    if line > 0 && g.mark(line) == RowMark::PromptContinuation {
        lemma_continued_from(g, line - 1);
    }
}

impl Term {
    /// Clear the prompt before a width change, so the shell can repaint it on empty rows.
    ///
    /// Shells repaint their prompt after a resize. A reflowed right prompt or multi-line prompt
    /// would leave fragments behind the repaint. The `redraw` option of the prompt start marker
    /// states what the shell repaints: the whole prompt, only its last line, or nothing.
    ///
    /// The shell moves the cursor relative to its last position, so the cursor row must not move
    /// during the reflow: the cursor column is clamped to the new width and the prompt is cut off
    /// from a wrapped row above it.
    /// What clearing the prompt for a repaint at `columns` columns makes of `old`: nothing, unless
    /// the shell is at its prompt and repaints some of it; then the redraw region is blank, its
    /// first row keeps its mark, the row above a fully repainted prompt no longer wraps into it,
    /// and the cursor keeps its row, within the new width and without a pending wrap.
    pub open spec fn redraw_cleared(new: Term, old: Term, columns: usize) -> bool {
        &&& !old.at_prompt() || old.prompt.redraw == PromptRedraw::Nothing ==> new == old
        &&& old.at_prompt() && old.prompt.redraw != PromptRedraw::Nothing ==> ({
                let g = old.grid;
                let h = new.grid;
                let cursor = g.cursor.point;
                let (start, end) = old.redraw_region();
                let cut = old.prompt.redraw == PromptRedraw::Full && start > g.topmost();
                &&& new.inactive_grid == old.inactive_grid
                &&& new.alt_screen == old.alt_screen
                &&& new.vi_mode_cursor == old.vi_mode_cursor
                &&& new.vi_mode == old.vi_mode
                &&& new.fully_damaged
                &&& new.prompt == old.prompt
                &&& h.columns == g.columns && h.screen_lines == g.screen_lines
                &&& h.max_history == g.max_history && h.rows@.len() == g.rows@.len()
                &&& h.display_offset == g.display_offset
                // The cursor stays on its row, within the new width.
                &&& h.cursor.point.line == cursor.line
                &&& h.cursor.point.column.0 == if cursor.column.0 < columns {
                    cursor.column.0
                } else {
                    (columns - 1) as usize
                }
                &&& !h.cursor.input_needs_wrap
                // The cleared rows: from the prompt down to the end of the screen, or the last
                // prompt line only.
                &&& 0 <= start <= cursor.line.0 < end <= g.screen_lines
                &&& forall|l: int| start <= l < end ==> all_empty(#[trigger] h.row(l).cells@)
                &&& forall|l: int|
                    start <= l < end ==> #[trigger] h.row(l).cells@ == crate::grid::blank_cells(
                        g.columns as nat,
                    )
                &&& h.mark(start) == g.mark(start)
                &&& forall|l: int| start < l < end ==> #[trigger] h.mark(l) == RowMark::Unmarked
                // Rows outside stay, but for the wrap into the prompt.
                &&& forall|l: int|
                    h.has_line(l) && !(start <= l < end) && !(cut && l == start - 1) ==> #[trigger] h.row(l)
                        == g.row(l)
                &&& cut ==> h.mark(start - 1) == g.mark(start - 1)
                &&& cut ==> h.row(start - 1).cells@ == g.row(start - 1).cells@.update(
                    g.columns - 1,
                    (Cell { wrapline: false, ..g.row(start - 1).cells@[g.columns - 1] }),
                )
            })
    }

    #[verifier::rlimit(40)]
    pub fn clear_prompt_for_redraw(&mut self, columns: usize)
        requires
            old(self).wf(),
            old(self).at_prompt() && old(self).prompt.redraw != PromptRedraw::Nothing ==> columns
                >= 1,
        ensures
            final(self).wf(),
            Term::redraw_cleared(*final(self), *old(self), columns),
    {
        if !self.cursor_at_prompt() {
            return;
        }

        let cursor_line = self.grid.cursor.point.line;
        let screen_lines = Line(self.screen_lines() as i32);
        let ghost g = self.grid;
        let (start, end) = match self.prompt.redraw {
            PromptRedraw::Nothing => return,
            PromptRedraw::LastLine => (cursor_line, Line(cursor_line.0 + 1)),
            PromptRedraw::Full => {
                // Stop at the active primary or secondary prompt, preserving accepted input.
                proof {
                    lemma_continued_from(g, cursor_line.0 as int);
                }
                let mut start = cursor_line;
                while self.grid.mark_at(start) == RowMark::PromptContinuation && start.0 > 0
                    invariant
                        self.wf(),
                        g == self.grid,
                        0 <= start.0 <= cursor_line.0 < g.screen_lines,
                        continued_from(g, start.0 as int) == continued_from(
                            g,
                            cursor_line.0 as int,
                        ),
                    decreases start.0,
                {
                    start = Line(start.0 - 1);
                }
                let mark = self.grid.mark_at(start);
                let is_prompt = matches!(
                    mark,
                    RowMark::Prompt | RowMark::PromptSecondary | RowMark::PromptContinuation
                );
                if !is_prompt && start.0 != cursor_line.0 {
                    start = Line(start.0 + 1);
                }
                (start, screen_lines)
            },
        };
        assert((start.0 as int, end.0 as int) == self.redraw_region());

        // Keep the first cleared row identifiable until the shell sends its markers again; bash
        // repaints its last prompt line without a marker.
        let start_mark = self.grid.mark_at(start);
        self.grid.reset_region(start, end);
        let ghost after_reset = self.grid;
        self.grid.set_mark(start, start_mark);
        let ghost cleared = self.grid;
        assert forall|l: int| start.0 <= l < end.0 implies all_empty(
            #[trigger] cleared.row(l).cells@,
        ) by {
            assert(after_reset.has_line(l));
            assert(blank_row(after_reset.row(l), after_reset.columns as nat));
            assert(cleared.row(l).cells == after_reset.row(l).cells);
            assert(Cell::spec_blank().empty());
        }
        assert forall|l: int| start.0 < l < end.0 implies #[trigger] cleared.mark(l)
            == RowMark::Unmarked by {
            assert(after_reset.has_line(l));
            assert(blank_row(after_reset.row(l), after_reset.columns as nat));
        }

        // The prompt starts a fresh line; do not join it with the row above during the reflow.
        let topmost = self.topmost_line();
        if self.prompt.redraw == PromptRedraw::Full && start.0 > topmost.0 {
            let last_column = self.last_column();
            self.grid.set_wrapline(Line(start.0 - 1), last_column, false);
        }
        let ghost cut = self.grid;

        // Keep the cursor on its row; the reflow would wrap it beyond the new width.
        self.grid.cursor.input_needs_wrap = false;
        if self.grid.cursor.point.column.0 > columns - 1 {
            self.grid.cursor.point.column = Column(columns - 1);
        }

        self.fully_damaged = true;
        assert forall|l: int| self.grid.has_line(l) implies #[trigger] self.grid.row(l) == cut.row(l)
            by {}
        assert forall|l: int| start.0 <= l < end.0 implies #[trigger] self.grid.row(l)
            == cleared.row(l) by {
            assert(cut.row(l) == cleared.row(l));
        }
        assert forall|l: int| start.0 <= l < end.0 implies #[trigger] self.grid.row(l).cells@
            == crate::grid::blank_cells(g.columns as nat) by {
            assert(self.grid.row(l) == cleared.row(l));
            assert(after_reset.has_line(l));
            assert(blank_row(after_reset.row(l), after_reset.columns as nat));
            assert(cleared.row(l).cells == after_reset.row(l).cells);
        }
        assert forall|l: int| start.0 < l < end.0 implies #[trigger] self.grid.mark(l)
            == RowMark::Unmarked by {
            assert(self.grid.row(l) == cleared.row(l));
            assert(cleared.mark(l) == RowMark::Unmarked);
        }
        assert forall|l: int|
            self.grid.has_line(l) && !(start.0 <= l < end.0) && !(self.prompt.redraw
                == PromptRedraw::Full && start.0 > g.topmost() && l == start.0 - 1) implies
            #[trigger] self.grid.row(l) == g.row(l) by {
            assert(after_reset.row(l) == g.row(l));
            assert(cleared.row(l) == after_reset.row(l));
            assert(cut.row(l) == cleared.row(l));
        }
        proof {
            if self.prompt.redraw == PromptRedraw::Full && start.0 > g.topmost() {
                let above = start.0 - 1;
                assert(self.grid.row(above) == cut.row(above));
                assert(after_reset.has_line(above));
                assert(after_reset.row(above) == g.row(above));
                assert(cleared.row(above) == after_reset.row(above));
            }
        }
    }
}


/// Rows of the prompt that starts a command's output, and the output itself, hold no primary
/// prompt row after the prompt row that anchors them.
proof fn lemma_output_has_no_prompt(g: Grid, line: int)
    requires
        output_bounds_of(g, line) is Some,
    ensures
        ({
            let (s, e) = output_bounds_of(g, line).unwrap();
            let anchor = command_anchor(g, line);
            let first = if g.mark(anchor) == RowMark::Prompt {
                anchor + 1
            } else {
                anchor
            };
            &&& g.topmost() <= anchor < s
                || (anchor == s && g.mark(anchor) != RowMark::Prompt)
            &&& g.topmost() <= s <= e <= g.bottommost()
            &&& forall|k: int| first <= k <= e ==> #[trigger] g.mark(k) != RowMark::Prompt
            &&& nearest_prompt(g, line + 1, Direction::Left) is None ==> anchor == g.topmost()
                && forall|k: int|
                g.topmost() <= k < min_int(line + 1, g.bottommost() + 1) ==> #[trigger] g.mark(k)
                    != RowMark::Prompt
            &&& nearest_prompt(g, line + 1, Direction::Left) matches Some(p) ==> p == anchor
                && g.mark(p) == RowMark::Prompt
        }),
{
    let anchor = command_anchor(g, line);
    let first = if g.mark(anchor) == RowMark::Prompt {
        anchor + 1
    } else {
        anchor
    };
    let s = output_start(g, line);
    let last = match nearest_prompt(g, s - 1, Direction::Right) {
        Some(next) => next - 1,
        None => g.bottommost(),
    };
    lemma_last_prompt(g, g.topmost(), min_int(line + 1, g.bottommost() + 1));
    lemma_after_prompt_rows(g, first);
    lemma_first_prompt(g, max_int(s, g.topmost()), g.bottommost() + 1);
    lemma_before_empty_rows(g, s, last);
}

/// Every row of a command's output selects that same output: the bounds found from any line
/// are found again from each row between them.
pub proof fn lemma_output_bounds_stable(g: Grid, line: int, k: int)
    requires
        output_bounds_of(g, line) is Some,
        output_bounds_of(g, line).unwrap().0 <= k <= output_bounds_of(g, line).unwrap().1,
    ensures
        output_bounds_of(g, k) == output_bounds_of(g, line),
{
    let (s, e) = output_bounds_of(g, line).unwrap();
    let anchor = command_anchor(g, line);
    lemma_output_has_no_prompt(g, line);
    lemma_last_prompt(g, g.topmost(), min_int(line + 1, g.bottommost() + 1));
    lemma_last_prompt(g, g.topmost(), min_int(k + 1, g.bottommost() + 1));
    assert(command_anchor(g, k) == anchor) by {
        match nearest_prompt(g, k + 1, Direction::Left) {
            Some(q) => {
                if q < anchor {
                    assert(g.mark(anchor) == RowMark::Prompt);
                } else if q > anchor {
                    assert(g.mark(q) != RowMark::Prompt);
                }
            },
            None => {
                if g.mark(anchor) == RowMark::Prompt {
                    assert(g.topmost() <= anchor < k + 1);
                }
            },
        }
    }
}

/// A prompt row selects the output of the command it starts.
pub proof fn lemma_output_of_prompt(g: Grid, p: int)
    requires
        g.has_line(p),
        g.mark(p) == RowMark::Prompt,
    ensures
        output_start(g, p) == after_prompt_rows(g, p + 1),
{
    lemma_last_prompt(g, g.topmost(), min_int(p + 1, g.bottommost() + 1));
}

/// Moving to the next prompt row and back to the previous one returns to the prompt row where
/// the moves started, and the other way round.
pub proof fn lemma_prompt_navigation(g: Grid, p: int)
    requires
        g.has_line(p),
        g.mark(p) == RowMark::Prompt,
    ensures
        nearest_prompt(g, p, Direction::Right) matches Some(q) ==> nearest_prompt(
            g,
            q,
            Direction::Left,
        ) == Some(p),
        nearest_prompt(g, p, Direction::Left) matches Some(q) ==> nearest_prompt(
            g,
            q,
            Direction::Right,
        ) == Some(p),
{
    lemma_first_prompt(g, max_int(p + 1, g.topmost()), g.bottommost() + 1);
    lemma_last_prompt(g, g.topmost(), min_int(p, g.bottommost() + 1));
    if let Some(q) = nearest_prompt(g, p, Direction::Right) {
        lemma_last_prompt(g, g.topmost(), min_int(q, g.bottommost() + 1));
    }
    if let Some(q) = nearest_prompt(g, p, Direction::Left) {
        lemma_first_prompt(g, max_int(q + 1, g.topmost()), g.bottommost() + 1);
    }
}


/// `continued_from` reads only the marks of the rows from the top of the screen down to the
/// line.
proof fn lemma_continued_from_same(g: Grid, h: Grid, line: int)
    requires
        forall|k: int| 0 <= k <= line ==> #[trigger] g.mark(k) == h.mark(k),
    ensures
        continued_from(g, line) == continued_from(h, line),
    decreases line,
{
    if line > 0 {
        lemma_continued_from_same(g, h, line - 1);
    }
}

/// Clearing the prompt a second time before the shell repainted it changes no row: only the
/// cursor column is clamped to the second width.
pub proof fn lemma_redraw_clear_twice(t0: Term, t1: Term, t2: Term, c1: usize, c2: usize)
    requires
        t0.wf(),
        t0.at_prompt(),
        t0.prompt.redraw != PromptRedraw::Nothing,
        c1 >= 1,
        c2 >= 1,
        Term::redraw_cleared(t1, t0, c1),
        Term::redraw_cleared(t2, t1, c2),
    ensures
        t2.grid.rows@.len() == t1.grid.rows@.len(),
        forall|l: int|
            t1.grid.has_line(l) ==> #[trigger] t2.grid.row(l).cells@ == t1.grid.row(l).cells@
                && t2.grid.mark(l) == t1.grid.mark(l),
        t2.grid.cursor.point.line == t1.grid.cursor.point.line,
        t2.grid.cursor.point.column.0 == min_int(
            t1.grid.cursor.point.column.0 as int,
            c2 - 1,
        ),
        !t2.grid.cursor.input_needs_wrap,
        t2.prompt == t1.prompt,
        t2.alt_screen == t1.alt_screen,
{
    let g0 = t0.grid;
    let g1 = t1.grid;
    let g2 = t2.grid;
    let c = g0.cursor.point.line.0 as int;
    let (s1, e1) = t0.redraw_region();
    let (s2, e2) = t1.redraw_region();
    assert(t1.at_prompt());
    // The second region lies in the first, whose rows are blank already.
    if t0.prompt.redraw == PromptRedraw::Full {
        lemma_continued_from(g0, c);
        lemma_continued_from(g1, c);
        if s1 == c {
            assert forall|k: int| 0 <= k <= c implies #[trigger] g0.mark(k) == g1.mark(k) by {
                if k < s1 {
                    if !(t0.prompt.redraw == PromptRedraw::Full && s1 > g0.topmost() && k == s1 - 1) {
                        assert(g1.row(k) == g0.row(k));
                    }
                }
            }
            lemma_continued_from_same(g0, g1, c);
            assert(s2 == s1);
        } else {
            assert(g1.mark(c) == RowMark::Unmarked);
            assert(continued_from(g1, c) == c);
            assert(s2 == c);
        }
    }
    assert(s1 <= s2 && e2 == e1 || t0.prompt.redraw == PromptRedraw::LastLine && s2 == s1
        && e2 == e1);
    let cut2 = t1.prompt.redraw == PromptRedraw::Full && s2 > g1.topmost();
    assert forall|l: int| t1.grid.has_line(l) implies #[trigger] t2.grid.row(l).cells@
        == t1.grid.row(l).cells@ && t2.grid.mark(l) == t1.grid.mark(l) by {
        if s2 <= l < e2 {
            assert(g1.row(l).cells@ == crate::grid::blank_cells(g0.columns as nat));
            if l > s2 {
                assert(g1.mark(l) == RowMark::Unmarked);
            }
        } else if cut2 && l == s2 - 1 {
            if s2 > s1 {
                assert(g1.row(l).cells@ == crate::grid::blank_cells(g0.columns as nat));
                assert(g1.row(l).cells@[g1.columns - 1] == Cell::spec_blank());
            } else {
                assert(g1.row(l).cells@[g1.columns - 1].wrapline == false);
            }
            assert(g2.row(l).cells@ =~= g1.row(l).cells@);
        } else {
            assert(g2.row(l) == g1.row(l));
        }
    }
}


/// When the shell repaints its whole prompt, clearing at the prompt blanks every row of the
/// active prompt, from its first row down to the bottom of the screen, wherever the cursor
/// stands on the prompt's rows: the rows from the cursor row down, and each row above it that
/// carries a prompt mark and continues down to the cursor.
pub proof fn lemma_full_redraw_clears_prompt(old: Term, new: Term, columns: usize)
    requires
        old.wf(),
        old.at_prompt(),
        old.prompt.redraw == PromptRedraw::Full,
        columns >= 1,
        Term::redraw_cleared(new, old, columns),
    ensures
        forall|l: int|
            old.grid.cursor.point.line.0 <= l < old.grid.screen_lines ==> #[trigger] new.grid.row(
                l,
            ).cells@ == crate::grid::blank_cells(old.grid.columns as nat),
        forall|l: int|
            0 <= l < old.grid.cursor.point.line.0 && is_prompt_mark(old.grid.mark(l)) && (forall|
                k: int,
            |
                l < k <= old.grid.cursor.point.line.0 ==> #[trigger] old.grid.mark(k)
                    == RowMark::PromptContinuation) ==> #[trigger] new.grid.row(l).cells@
                == crate::grid::blank_cells(old.grid.columns as nat),
{
    let g = old.grid;
    let c = g.cursor.point.line.0 as int;
    lemma_continued_from(g, c);
    let top = continued_from(g, c);
    let (start, end) = old.redraw_region();
    assert(start <= c);
    assert forall|l: int|
        0 <= l < c && is_prompt_mark(g.mark(l)) && (forall|k: int|
            l < k <= c ==> #[trigger] g.mark(k) == RowMark::PromptContinuation) implies start <= l by {
        if l < top {
            assert(g.mark(top) == RowMark::PromptContinuation);
        }
    }
}

} // verus!
