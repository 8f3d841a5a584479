//! Line and column coordinates of the grid.

use vstd::prelude::*;

verus! {

/// A line of the grid: `0` is the top of the screen, negative lines are in the scrollback.
#[derive(Debug, Clone, Copy, PartialEq, Eq, Structural)]
pub struct Line(pub i32);

/// A column of the grid, counted from the left edge.
#[derive(Debug, Clone, Copy, PartialEq, Eq, Structural)]
pub struct Column(pub usize);

/// A cell position in the grid.
#[derive(Debug, Clone, Copy, PartialEq, Eq, Structural)]
pub struct Point {
    pub line: Line,
    pub column: Column,
}

impl Point {
    pub fn new(line: Line, column: Column) -> (p: Point)
        ensures
            p.line == line,
            p.column == column,
    {
        Point { line, column }
    }
}

/// Search direction: `Left` looks towards the top of the scrollback, `Right` towards the bottom.
#[derive(Debug, Clone, Copy, PartialEq, Eq, Structural)]
pub enum Direction {
    Left,
    Right,
}

} // verus!
