# shell_integration

Shell integration for a terminal, verified with Verus: OSC 133 prompt marks kept per row of
the grid, prompt navigation, command output selection, prompt clearing before a reflow, and
OSC 7 working directory reports.

- `src/index.rs`: lines, columns, points and directions.
- `src/grid.rs`: cells, rows with their prompt marks, and the grid of scrollback and screen.
- `src/term.rs`: the terminal state, cursor movement, clearing, the alternate screen and vi mode.
- `src/prompt.rs`: prompt state, marks, prompt search, output bounds, and the laws that relate
  them.
- `src/resize.rs`: growing and shrinking the grid, with and without reflow.
- `src/working_directory.rs`: conversion of `file://` URIs to local Unix paths or Windows drive
  paths, and the choice between the report and process inspection.
- `app/`: the file system checks and path conversions around the library.
- `tests/`: a small escape-sequence driver and the scenarios of the library.
