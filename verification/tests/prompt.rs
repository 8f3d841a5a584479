use shell_integration::grid::RowMark;
use shell_integration::prompt::{
    PromptKind, PromptOptions, PromptRedraw, PromptStart, PromptState, PromptZone,
};
use shell_integration::term::{ClearMode, Term, ViMotion};
use shell_integration::{Column, Direction, Line, Point};

fn term(columns: usize, lines: usize, history: usize) -> Term {
    Term::new(columns, lines, history)
}

/// Whether a character takes two columns.
fn is_wide(c: char) -> bool {
    let c = c as u32;
    (0x1100..=0x115f).contains(&c)
        || (0x2e80..=0xa4cf).contains(&c)
        || (0xac00..=0xd7a3).contains(&c)
        || (0xf900..=0xfaff).contains(&c)
        || (0xfe30..=0xfe4f).contains(&c)
        || (0xff00..=0xff60).contains(&c)
        || (0xffe0..=0xffe6).contains(&c)
        || (0x1f300..=0x1f64f).contains(&c)
        || (0x20000..=0x3fffd).contains(&c)
}

/// Numeric parameter `index` of a control sequence, or `default` when it is absent or zero.
fn param(params: &[Option<u32>], index: usize, default: u32) -> u32 {
    match params.get(index) {
        Some(Some(value)) if *value != 0 => *value,
        _ => default,
    }
}

fn csi_dispatch(term: &mut Term, private: bool, params: &[Option<u32>], action: u8) {
    match (private, action) {
        (false, b'A') => term.move_up(param(params, 0, 1) as usize),
        (false, b'H') => {
            let line = param(params, 0, 1) as i32 - 1;
            let column = param(params, 1, 1) as usize - 1;
            term.goto(Line(line), Column(column));
        },
        (false, b'J') => match params.first().copied().flatten().unwrap_or(0) {
            0 => term.clear_screen(ClearMode::Below),
            2 => term.clear_screen(ClearMode::All),
            3 => term.clear_screen(ClearMode::Saved),
            _ => (),
        },
        (true, b'h') if params.first() == Some(&Some(1049)) => term.set_alternate_screen(true),
        (true, b'l') if params.first() == Some(&Some(1049)) => term.set_alternate_screen(false),
        _ => (),
    }
}

/// Options of a prompt start marker; absent settings take their defaults.
fn prompt_start(fields: &[&str], with_options: bool) -> PromptStart {
    let mut kind = PromptKind::Primary;
    let mut redraw = PromptRedraw::Full;
    let mut click_events = None;
    for field in fields {
        match field.split_once('=') {
            Some(("k", "s")) | Some(("k", "c")) => kind = PromptKind::Continuation,
            Some(("k", _)) => kind = PromptKind::Primary,
            Some(("redraw", "0")) => redraw = PromptRedraw::Nothing,
            Some(("redraw", "last")) => redraw = PromptRedraw::LastLine,
            Some(("redraw", _)) => redraw = PromptRedraw::Full,
            Some(("click_events", value)) => click_events = value.parse().ok(),
            _ => (),
        }
    }
    let options = with_options.then_some(PromptOptions { redraw, click_events });
    PromptStart { kind, options }
}

fn osc_dispatch(term: &mut Term, payload: &[u8]) {
    let text = String::from_utf8_lossy(payload);
    let fields: Vec<&str> = text.split(';').collect();
    if fields.first() != Some(&"133") || fields.len() < 2 {
        return;
    }
    let rest = &fields[2..];
    match fields[1] {
        "A" | "N" => term.mark_prompt_start(prompt_start(rest, true)),
        "P" => term.mark_prompt_start(prompt_start(rest, false)),
        "B" => term.set_prompt_zone(PromptZone::Input),
        "C" => term.mark_command_executed(),
        "D" => term.set_prompt_zone(PromptZone::Output),
        _ => (),
    }
}

/// Feed bytes as a shell would write them to the terminal.
fn feed(term: &mut Term, bytes: &[u8]) {
    let mut i = 0;
    while i < bytes.len() {
        match bytes[i] {
            0x1b => {
                i += 1;
                match bytes.get(i) {
                    Some(b'[') => {
                        i += 1;
                        let private = bytes.get(i) == Some(&b'?');
                        if private {
                            i += 1;
                        }
                        let mut params: Vec<Option<u32>> = vec![None];
                        while i < bytes.len() && !(0x40..=0x7e).contains(&bytes[i]) {
                            let byte = bytes[i];
                            if byte == b';' {
                                params.push(None);
                            } else if byte.is_ascii_digit() {
                                let last = params.last_mut().unwrap();
                                *last = Some(last.unwrap_or(0) * 10 + u32::from(byte - b'0'));
                            }
                            i += 1;
                        }
                        if i < bytes.len() {
                            csi_dispatch(term, private, &params, bytes[i]);
                            i += 1;
                        }
                    },
                    Some(b']') => {
                        i += 1;
                        let start = i;
                        while i < bytes.len() && bytes[i] != 0x07 && bytes[i] != 0x1b {
                            i += 1;
                        }
                        osc_dispatch(term, &bytes[start..i]);
                        if bytes.get(i) == Some(&0x1b) {
                            i += 1;
                        }
                        i += 1;
                    },
                    Some(b'c') => {
                        term.reset_state();
                        i += 1;
                    },
                    _ => i += 1,
                }
            },
            b'\r' => {
                term.carriage_return();
                i += 1;
            },
            b'\n' => {
                term.linefeed();
                i += 1;
            },
            byte if byte < 0x20 => i += 1,
            byte => {
                let len = match byte {
                    0xf0..=0xff => 4,
                    0xe0..=0xef => 3,
                    0xc0..=0xdf => 2,
                    _ => 1,
                };
                let end = (i + len).min(bytes.len());
                let c = std::str::from_utf8(&bytes[i..end])
                    .ok()
                    .and_then(|text| text.chars().next())
                    .unwrap_or('\u{fffd}');
                term.input(c, is_wide(c));
                i = end;
            },
        }
    }
}

/// All marked rows from the top of the scrollback to the bottom of the screen.
fn marks(term: &Term) -> Vec<(i32, RowMark)> {
    (term.topmost_line().0..=term.bottommost_line().0)
        .filter_map(|line| {
            let mark = term.row_mark(Line(line));
            (mark != RowMark::Unmarked).then_some((line, mark))
        })
        .collect()
}

fn mark_sequence(term: &Term) -> Vec<RowMark> {
    marks(term).into_iter().map(|(_, mark)| mark).collect()
}

fn row_text(term: &Term, line: i32) -> String {
    let row = term.grid().row_at(Line(line));
    row.cells.iter().map(|cell| cell.c).collect::<String>().trim_end().into()
}

fn is_clear(term: &Term, line: i32) -> bool {
    term.grid().row_at(Line(line)).is_clear()
}

/// Output, a two-line prompt with a right prompt, and typed input, on a 20 column screen.
fn prompt_with_right_prompt(options: &[u8]) -> Term {
    let mut term = term(20, 5, 10);
    let mut bytes = b"old\r\n\x1b]133;A".to_vec();
    bytes.extend_from_slice(options);
    bytes.extend_from_slice(b"\x07first\r\nsecond> \x1b]133;B\x07typed\x1b[3;16HRIGHT\x1b[3;14H");
    feed(&mut term, &bytes);
    assert_eq!(row_text(&term, 1), "first");
    assert_eq!(row_text(&term, 2), "second> typed  RIGHT");
    assert_eq!(term.grid().cursor.point, Point::new(Line(2), Column(13)));
    term
}

#[test]
fn markers_set_zone_and_row_marks() {
    let mut term = term(20, 5, 10);
    assert_eq!(term.prompt_state(), PromptState::default());
    assert!(!term.cursor_at_prompt());

    feed(&mut term, b"\x1b]133;A\x07$ ");
    assert_eq!(term.prompt_state().zone, PromptZone::Prompt);
    assert!(term.prompt_state().seen);
    assert!(term.cursor_at_prompt());
    assert_eq!(term.row_mark(Line(0)), RowMark::Prompt);

    feed(&mut term, b"\x1b]133;B\x07ls\r\n");
    assert_eq!(term.prompt_state().zone, PromptZone::Input);
    assert!(term.cursor_at_prompt());
    assert_eq!(term.row_mark(Line(1)), RowMark::PromptContinuation);

    feed(&mut term, b"\x1b]133;C\x07out\r\n");
    assert_eq!(term.prompt_state().zone, PromptZone::Output);
    assert!(!term.cursor_at_prompt());
    assert_eq!(term.row_mark(Line(1)), RowMark::OutputStart);
    assert_eq!(term.row_mark(Line(2)), RowMark::Unmarked);

    feed(&mut term, b"\x1b]133;D;0\x07");
    assert_eq!(term.prompt_state().zone, PromptZone::Output);

    feed(&mut term, b"\x1b]133;A\x07");
    assert_eq!(term.row_mark(Line(2)), RowMark::Prompt);
    assert_eq!(marks(&term), [
        (0, RowMark::Prompt),
        (1, RowMark::OutputStart),
        (2, RowMark::Prompt)
    ]);
}

#[test]
fn continuation_on_linefeed_and_wrap() {
    let mut term = term(10, 12, 0);
    feed(&mut term, b"\x1b]133;A\x07line1\r\nline2\x1b]133;B\x07abcdefghijkl\r\n");
    feed(&mut term, b"\x1b]133;P;k=s\x07> \r\n\x1b]133;A;k=s\x07> \r\n");
    feed(&mut term, b"\x1b]133;C\x07out\r\nmore\r\n\x1b]133;D\x07");

    assert_eq!(marks(&term), [
        (0, RowMark::Prompt),
        (1, RowMark::PromptContinuation),
        (2, RowMark::PromptContinuation),
        (3, RowMark::PromptSecondary),
        (4, RowMark::PromptSecondary),
        (5, RowMark::OutputStart),
    ]);
    assert_eq!(term.grid().cursor.point, Point::new(Line(7), Column(0)));
}

#[test]
fn options_only_from_a_and_n_markers() {
    let mut term = term(20, 5, 0);
    feed(&mut term, b"\x1b]133;A;redraw=last;click_events=1\x07");
    assert_eq!(term.prompt_state(), PromptState {
        seen: true,
        zone: PromptZone::Prompt,
        redraw: PromptRedraw::LastLine,
        click_events: Some(1),
    });

    feed(&mut term, b"\x1b]133;P;k=i\x07");
    assert_eq!(term.prompt_state().redraw, PromptRedraw::LastLine);
    assert_eq!(term.prompt_state().click_events, Some(1));
    assert_eq!(term.row_mark(Line(0)), RowMark::Prompt);

    feed(&mut term, b"\x1b]133;N\x07");
    assert_eq!(term.prompt_state().redraw, PromptRedraw::Full);
    assert_eq!(term.prompt_state().click_events, None);

    let options = PromptOptions { redraw: PromptRedraw::Nothing, click_events: Some(2) };
    term.mark_prompt_start(PromptStart { kind: PromptKind::Primary, options: Some(options) });
    assert_eq!(term.prompt_state().redraw, PromptRedraw::Nothing);
    assert_eq!(term.prompt_state().click_events, Some(2));
}

#[test]
fn output_then_prompt_on_one_row() {
    let mut term = term(20, 5, 0);
    feed(&mut term, b"\x1b]133;C\x07partial\x1b]133;D;1\x07\x1b]133;A\x07$ ");
    assert_eq!(term.row_mark(Line(0)), RowMark::Prompt);
    assert_eq!(term.prompt_state().zone, PromptZone::Prompt);

    // A command executed marker away from the first column does not mark the row.
    feed(&mut term, b"\x1b]133;B\x07\x1b]133;C\x07");
    assert_eq!(term.row_mark(Line(0)), RowMark::Prompt);
    assert_eq!(term.prompt_state().zone, PromptZone::Output);
}

#[test]
fn marks_follow_scrollback_and_clearing() {
    let mut term = term(10, 3, 20);
    feed(&mut term, b"\x1b]133;A\x07$ \x1b]133;B\x07\r\n\x1b]133;C\x07");
    assert_eq!(marks(&term), [(0, RowMark::Prompt), (1, RowMark::OutputStart)]);

    feed(&mut term, b"\r\n\r\n\r\n\r\n");
    assert_eq!(marks(&term), [(-3, RowMark::Prompt), (-2, RowMark::OutputStart)]);

    // Clearing the screen moves the viewport into the scrollback.
    feed(&mut term, b"x\x1b[2J");
    assert_eq!(marks(&term), [(-6, RowMark::Prompt), (-5, RowMark::OutputStart)]);

    feed(&mut term, b"\x1b[3J");
    assert_eq!(marks(&term), []);
}

#[test]
fn marks_evicted_with_history() {
    let mut term = term(10, 3, 2);
    feed(&mut term, b"\x1b]133;A\x07$ \x1b]133;B\x07\r\n\x1b]133;C\x07");
    feed(&mut term, &b"\r\n".repeat(10));
    assert_eq!(marks(&term), []);
}

#[test]
fn alternate_screen_ignores_markers() {
    let mut term = term(10, 3, 0);
    feed(&mut term, b"\x1b]133;A\x07$ \x1b]133;B\x07");
    assert!(term.cursor_at_prompt());

    feed(&mut term, b"\x1b[?1049h");
    assert!(!term.cursor_at_prompt());
    assert_eq!(term.row_mark(Line(0)), RowMark::Unmarked);

    feed(&mut term, b"\x1b]133;A\x07\x1b]133;C\x07\r\n");
    assert_eq!(term.row_mark(Line(0)), RowMark::Unmarked);
    assert_eq!(term.row_mark(Line(1)), RowMark::Unmarked);
    assert_eq!(term.prompt_state().zone, PromptZone::Input);

    feed(&mut term, b"\x1b[?1049l");
    assert!(term.cursor_at_prompt());
    assert_eq!(term.row_mark(Line(0)), RowMark::Prompt);
}

#[test]
fn reset_clears_marks_and_state() {
    let mut term = term(10, 3, 0);
    feed(&mut term, b"\x1b]133;A;redraw=0\x07$ \x1b]133;B\x07\x1bc");
    assert_eq!(term.prompt_state(), PromptState::default());
    assert_eq!(term.row_mark(Line(0)), RowMark::Unmarked);
    assert!(!term.cursor_at_prompt());
}

#[test]
fn reflow_keeps_prompt_marks() {
    let mut term = term(20, 6, 20);
    feed(&mut term, b"\x1b]133;A\x07");
    feed(&mut term, &b"p".repeat(30));
    feed(&mut term, b"\x1b]133;B\x07\r\n\x1b]133;C\x07output\r\n");
    assert_eq!(marks(&term), [
        (0, RowMark::Prompt),
        (1, RowMark::PromptContinuation),
        (2, RowMark::OutputStart)
    ]);

    term.resize(10, 6);
    assert_eq!(mark_sequence(&term), [
        RowMark::Prompt,
        RowMark::PromptContinuation,
        RowMark::PromptContinuation,
        RowMark::OutputStart,
    ]);

    term.resize(20, 6);
    assert_eq!(mark_sequence(&term), [
        RowMark::Prompt,
        RowMark::PromptContinuation,
        RowMark::OutputStart
    ]);

    // The wrapped prompt joins into one row when it fits.
    term.resize(40, 6);
    assert_eq!(marks(&term), [(0, RowMark::Prompt), (1, RowMark::OutputStart)]);
}

#[test]
fn reflow_keeps_marks_with_wide_characters() {
    // Five wide characters fill the row, the sixth wraps.
    let mut term = term(10, 6, 20);
    feed(&mut term, b"\x1b]133;A\x07");
    feed(&mut term, "日本語日本語".as_bytes());
    feed(&mut term, b"\x1b]133;B\x07\r\n\x1b]133;C\x07out\r\n");
    assert_eq!(marks(&term), [
        (0, RowMark::Prompt),
        (1, RowMark::PromptContinuation),
        (2, RowMark::OutputStart)
    ]);

    // A wide character straddling the new width moves to the next row with a spacer.
    for columns in [7, 4, 10, 12, 20] {
        term.resize(columns, 6);
        let sequence = mark_sequence(&term);
        assert_eq!(sequence.first(), Some(&RowMark::Prompt), "{columns} columns");
        assert_eq!(sequence.last(), Some(&RowMark::OutputStart), "{columns} columns");
        assert!(
            sequence[1..sequence.len() - 1]
                .iter()
                .all(|mark| *mark == RowMark::PromptContinuation),
            "{columns} columns: {sequence:?}"
        );
    }
    assert_eq!(marks(&term), [(0, RowMark::Prompt), (1, RowMark::OutputStart)]);
}

/// Three commands on a four-line screen; the first two scroll into history.
///
/// Rows from the top: prompt, `one`, prompt, `two`, empty, empty, prompt, empty.
fn three_commands() -> Term {
    let mut term = term(10, 4, 20);
    feed(&mut term, b"\x1b]133;A\x07$ \x1b]133;B\x07a\r\n\x1b]133;C\x07one\r\n\x1b]133;D;0\x07");
    feed(&mut term, b"\x1b]133;A\x07$ \x1b]133;B\x07b\r\n\x1b]133;C\x07two\r\n\r\n\r\n");
    feed(&mut term, b"\x1b]133;D;0\x07\x1b]133;A\x07$ \x1b]133;B\x07c\r\n\x1b]133;C\x07");
    assert_eq!(marks(&term), [
        (-4, RowMark::Prompt),
        (-3, RowMark::OutputStart),
        (-2, RowMark::Prompt),
        (-1, RowMark::OutputStart),
        (2, RowMark::Prompt),
        (3, RowMark::OutputStart),
    ]);
    term
}

#[test]
fn find_prompt_across_history() {
    let empty = term(10, 4, 20);
    assert_eq!(empty.find_prompt(Line(3), Direction::Left), None);
    assert_eq!(empty.find_prompt(Line(0), Direction::Right), None);

    let term = three_commands();

    assert_eq!(term.find_prompt(Line(3), Direction::Left), Some(Line(2)));
    assert_eq!(term.find_prompt(Line(2), Direction::Left), Some(Line(-2)));
    assert_eq!(term.find_prompt(Line(-2), Direction::Left), Some(Line(-4)));
    assert_eq!(term.find_prompt(Line(-4), Direction::Left), None);
    assert_eq!(term.find_prompt(Line(10), Direction::Left), Some(Line(2)));

    assert_eq!(term.find_prompt(Line(-4), Direction::Right), Some(Line(-2)));
    assert_eq!(term.find_prompt(Line(-2), Direction::Right), Some(Line(2)));
    assert_eq!(term.find_prompt(Line(2), Direction::Right), None);
    assert_eq!(term.find_prompt(Line(-10), Direction::Right), Some(Line(-4)));
}

#[test]
fn output_bounds_per_command() {
    let term = three_commands();

    // Anchors on the prompt row and on the output row select the same output.
    assert_eq!(term.output_bounds(Line(-4)), Some((Line(-3), Line(-3))));
    assert_eq!(term.output_bounds(Line(-3)), Some((Line(-3), Line(-3))));

    // Trailing empty rows are not part of the output.
    assert_eq!(term.output_bounds(Line(-2)), Some((Line(-1), Line(-1))));
    assert_eq!(term.output_bounds(Line(-1)), Some((Line(-1), Line(-1))));
    assert_eq!(term.output_bounds(Line(1)), Some((Line(-1), Line(-1))));

    // The running command has no output yet.
    assert_eq!(term.output_bounds(Line(2)), None);
    assert_eq!(term.output_bounds(Line(3)), None);
}

#[test]
fn output_bounds_without_prompt_row() {
    // Output before the first prompt.
    let mut before = term(10, 6, 0);
    feed(&mut before, b"pre\r\n\x1b]133;A\x07$ \x1b]133;B\x07a\r\n\x1b]133;C\x07one\r\n");
    assert_eq!(before.output_bounds(Line(0)), Some((Line(0), Line(0))));
    assert_eq!(before.output_bounds(Line(3)), Some((Line(2), Line(2))));

    // The prompt row was evicted, only the wrapped input row remains above the output.
    let mut evicted = term(10, 3, 0);
    feed(&mut evicted, b"\x1b]133;A\x07$ \x1b]133;B\x07abcdefghijkl\r\n\x1b]133;C\x07one\r\n");
    assert_eq!(marks(&evicted), [(0, RowMark::PromptContinuation), (1, RowMark::OutputStart)]);
    assert_eq!(evicted.output_bounds(Line(2)), Some((Line(1), Line(1))));
    assert_eq!(evicted.output_bounds(Line(0)), Some((Line(1), Line(1))));

    // Nothing but empty rows.
    let empty = term(10, 3, 0);
    assert_eq!(empty.output_bounds(Line(1)), None);
}

#[test]
fn vi_prompt_motions() {
    let mut term = three_commands();
    term.toggle_vi_mode();
    term.vi_mode_cursor.point = Point::new(Line(3), Column(2));

    term.vi_motion(ViMotion::PromptUp);
    assert_eq!(term.vi_mode_cursor.point, Point::new(Line(2), Column(0)));
    term.vi_motion(ViMotion::PromptUp);
    assert_eq!(term.vi_mode_cursor.point, Point::new(Line(-2), Column(0)));
    assert_eq!(term.grid().display_offset(), 2);
    term.vi_motion(ViMotion::PromptUp);
    term.vi_motion(ViMotion::PromptUp);
    assert_eq!(term.vi_mode_cursor.point, Point::new(Line(-4), Column(0)));
    assert_eq!(term.grid().display_offset(), 4);

    term.vi_motion(ViMotion::PromptDown);
    assert_eq!(term.vi_mode_cursor.point, Point::new(Line(-2), Column(0)));
    term.vi_motion(ViMotion::PromptDown);
    term.vi_motion(ViMotion::PromptDown);
    assert_eq!(term.vi_mode_cursor.point, Point::new(Line(2), Column(0)));
    // The viewport scrolls just far enough to show the prompt.
    assert_eq!(term.grid().display_offset(), 1);
    term.vi_motion(ViMotion::PromptDown);
    assert_eq!(term.vi_mode_cursor.point, Point::new(Line(2), Column(0)));
}

#[test]
fn secondary_prompt_marks_survive_reflow() {
    let mut term = term(10, 8, 10);
    feed(
        &mut term,
        b"\x1b]133;A\x07$ \x1b]133;B\x07command\r\n\
          \x1b]133;P;k=s\x07abcdefghijklmno\x1b]133;B\x07\r\n\x1b]133;C\x07out\r\n",
    );

    for columns in [7, 12, 20] {
        term.resize(columns, 8);
        let boundaries: Vec<_> = marks(&term)
            .into_iter()
            .filter(|(_, mark)| *mark != RowMark::PromptContinuation)
            .collect();
        assert_eq!(boundaries.iter().map(|(_, mark)| *mark).collect::<Vec<_>>(), [
            RowMark::Prompt,
            RowMark::PromptSecondary,
            RowMark::OutputStart,
        ]);
        let primary = Line(boundaries[0].0);
        let secondary = Line(boundaries[1].0);
        let output = Line(boundaries[2].0);
        assert_eq!(term.find_prompt(term.bottommost_line(), Direction::Left), Some(primary));
        assert_eq!(term.output_bounds(primary), Some((output, output)));
        assert_eq!(term.output_bounds(secondary), Some((output, output)));
        assert_eq!(row_text(&term, output.0), "out");
    }
}

#[test]
fn resize_clears_prompt_for_redraw() {
    let mut term = prompt_with_right_prompt(b"");
    term.resize(10, 5);

    assert_eq!(row_text(&term, 0), "old");
    assert!((1..5).all(|line| is_clear(&term, line)));
    assert_eq!(marks(&term), [(1, RowMark::Prompt)]);
    assert_eq!(term.grid().cursor.point, Point::new(Line(2), Column(9)));
    assert!(term.cursor_at_prompt());

    // The shell repaints the prompt on the cleared rows.
    feed(&mut term, b"\r\x1b[A\x1b[J\x1b]133;A\x07first\r\nsecond> \x1b]133;B\x07typed");
    assert_eq!(row_text(&term, 1), "first");
    assert_eq!(row_text(&term, 2), "second> ty");
    assert_eq!(row_text(&term, 3), "ped");
    assert_eq!(marks(&term), [
        (1, RowMark::Prompt),
        (2, RowMark::PromptContinuation),
        (3, RowMark::PromptContinuation)
    ]);
}

#[test]
fn resize_preserves_accepted_input_at_secondary_prompt() {
    // zsh only redraws the active PS2, even when the primary prompt spans multiple lines.
    for marker in [b"\x1b]133;A;k=s\x07".as_slice(), b"\x1b]133;P;k=s\x07"] {
        let mut term = term(40, 8, 10);
        feed(&mut term, b"old\r\n\x1b]133;A\x07FIRST\r\nPROMPT> \x1b]133;B\x07printf '%s\\n' \\\r\n");
        feed(&mut term, marker);
        feed(&mut term, b"CONT> hello");

        term.resize(30, 8);
        assert_eq!(row_text(&term, 0), "old");
        assert_eq!(row_text(&term, 1), "FIRST", "marker: {marker:?}");
        assert_eq!(row_text(&term, 2), "PROMPT> printf '%s\\n' \\");
        assert!(is_clear(&term, 3));
        assert_eq!(term.row_mark(Line(3)), RowMark::PromptSecondary);

        // Replay zsh's repaint: it never sends the accepted command line again.
        feed(&mut term, b"\r\r\x1b[0m\x1b[27m\x1b[24m\x1b[J");
        feed(&mut term, marker);
        feed(&mut term, b"CONT> hello");
        assert_eq!(row_text(&term, 3), "CONT> hello");
        assert_eq!(term.output_bounds(Line(1)), None);

        feed(&mut term, b"\r\n\x1b]133;C\x07hello\r\n\x1b]133;D;0\x07\x1b]133;A\x07$ ");
        assert_eq!(term.output_bounds(Line(1)), Some((Line(4), Line(4))));
    }
}

#[test]
fn resize_clears_only_latest_secondary_prompt() {
    let mut term = term(20, 8, 10);
    feed(
        &mut term,
        b"\x1b]133;A\x07$ \x1b]133;B\x07one \\\r\n\
          \x1b]133;A;k=s\x07> \x1b]133;B\x07two \\\r\n\
          \x1b]133;P;k=s\x07first\r\n> \x1b]133;B\x07abcdefghijklmnopqrstuvwx",
    );
    assert_eq!(term.grid().cursor.point.line, Line(4));

    // A wrapped, multi-line PS2 and another resize before its repaint.
    for columns in [10, 12] {
        term.resize(columns, 8);
        assert_eq!(row_text(&term, 0), "$ one \\");
        assert_eq!(row_text(&term, 1), "> two \\");
        assert!((2..8).all(|line| is_clear(&term, line)));
        assert_eq!(term.row_mark(Line(2)), RowMark::PromptSecondary);
    }

    feed(
        &mut term,
        b"\r\x1b[2A\x1b[J\x1b]133;P;k=s\x07first\r\n> \x1b]133;B\x07abcdefghijklmnopqrstuvwx",
    );
    assert_eq!(row_text(&term, 2), "first");
    assert_eq!(term.output_bounds(Line(0)), None);
    assert_eq!(term.find_prompt(Line(5), Direction::Left), Some(Line(0)));
}

#[test]
fn resize_clears_input_wrapped_at_bottom_margin() {
    let mut term = term(10, 3, 10);
    feed(&mut term, b"old\r\n\x1b]133;A\x07first\r\n> \x1b]133;B\x07abcdefghijkl");
    assert_eq!(row_text(&term, -1), "old");

    // The wrap scrolled the prompt row up; clearing still starts at the prompt row.
    term.resize(8, 3);
    assert_eq!(row_text(&term, -1), "old");
    assert!((0..3).all(|line| is_clear(&term, line)));
    assert_eq!(marks(&term), [(0, RowMark::Prompt)]);
}

#[test]
fn resize_respects_redraw_option() {
    // The shell does not repaint: nothing is cleared, the prompt row reflows.
    let mut term = prompt_with_right_prompt(b";redraw=0");
    term.resize(10, 5);
    assert_eq!(row_text(&term, -1), "old");
    assert_eq!(row_text(&term, 0), "first");
    assert_eq!(row_text(&term, 1), "second> ty");
    assert_eq!(row_text(&term, 2), "ped  RIGHT");

    // Bash repaints only the last line: only the cursor row is cleared, and it keeps its
    // mark because the repaint carries no marker.
    let mut term = prompt_with_right_prompt(b";redraw=last");
    term.resize(10, 5);
    assert_eq!(row_text(&term, 1), "first");
    assert!((2..5).all(|line| is_clear(&term, line)));
    assert_eq!(marks(&term), [(1, RowMark::Prompt), (2, RowMark::PromptContinuation)]);
    feed(&mut term, b"\rrdslw> \x1b]133;B\x07typed");
    assert_eq!(term.output_bounds(Line(1)), None);
}

#[test]
fn resize_keeps_prompt_when_not_repainted() {
    // Only width changes reflow the prompt.
    let mut term = prompt_with_right_prompt(b"");
    term.resize(20, 8);
    assert_eq!(row_text(&term, 2), "second> typed  RIGHT");

    // A running command owns the screen.
    let mut term = prompt_with_right_prompt(b"");
    feed(&mut term, b"\r\n\x1b]133;C\x07");
    term.resize(10, 5);
    assert_eq!(row_text(&term, 0), "first");
    assert_eq!(row_text(&term, 1), "second> ty");

    // The alternate screen is never cleared, and the primary prompt is kept for later.
    let mut term = prompt_with_right_prompt(b"");
    feed(&mut term, b"\x1b[?1049h\x1b[Happ");
    term.resize(10, 5);
    assert_eq!(row_text(&term, 0), "app");
    feed(&mut term, b"\x1b[?1049l");
    assert_eq!(row_text(&term, 0), "first");
    assert_eq!(row_text(&term, 1), "second> ty");
    assert!(term.cursor_at_prompt());
}

#[test]
fn resize_cuts_prompt_from_wrapped_row_above() {
    // Like zsh's `%` end-of-output marker: the row above the prompt wrapped into it.
    let mut term = term(20, 5, 10);
    feed(&mut term, b"no newline%                   ");
    feed(&mut term, b"\r \r\x1b[J\x1b]133;A\x07first\r\nsecond> \x1b]133;B\x07typed");
    assert_eq!(row_text(&term, 0), "no newline%");
    assert_eq!(row_text(&term, 1), "first");

    term.resize(30, 5);
    assert_eq!(row_text(&term, 0), "no newline%");
    assert!((1..5).all(|line| is_clear(&term, line)));
    assert_eq!(marks(&term), [(1, RowMark::Prompt)]);
    assert_eq!(term.grid().cursor.point, Point::new(Line(2), Column(13)));
}

#[test]
fn resize_twice_before_repaint_and_with_height_change() {
    let mut term = prompt_with_right_prompt(b"");

    // Width and height change together; the rows are cleared and the cursor row stays.
    term.resize(10, 8);
    assert_eq!(row_text(&term, 0), "old");
    assert!((1..8).all(|line| is_clear(&term, line)));
    assert_eq!(marks(&term), [(1, RowMark::Prompt)]);
    assert_eq!(term.grid().cursor.point, Point::new(Line(2), Column(9)));

    // A second resize before the shell repaints finds blank rows and the kept mark.
    term.resize(6, 8);
    assert_eq!(row_text(&term, 0), "old");
    assert!((1..8).all(|line| is_clear(&term, line)));
    assert_eq!(marks(&term), [(1, RowMark::Prompt)]);
    assert_eq!(term.grid().cursor.point, Point::new(Line(2), Column(5)));
    assert!(term.cursor_at_prompt());

    // Growing back keeps the state as well.
    term.resize(20, 8);
    assert_eq!(marks(&term), [(1, RowMark::Prompt)]);
    assert_eq!(term.grid().cursor.point, Point::new(Line(2), Column(5)));
}

#[test]
fn resize_clears_from_cursor_without_prompt_row() {
    // Input from a shell which never sent a prompt start marker.
    let mut term = term(20, 5, 10);
    feed(&mut term, b"old\r\n$ \x1b]133;B\x07typed");
    assert!(term.cursor_at_prompt());
    term.resize(10, 5);
    assert_eq!(row_text(&term, 0), "old");
    assert!((1..5).all(|line| is_clear(&term, line)));
}

#[test]
fn output_bounds_same_from_every_output_row() {
    let mut term = term(10, 8, 0);
    feed(&mut term, b"\x1b]133;A\x07$ \x1b]133;B\x07a\r\n\x1b]133;C\x07one\r\ntwo\r\n\r\nsix\r\n");
    feed(&mut term, b"\x1b]133;D;0\x07\x1b]133;A\x07$ ");
    let bounds = term.output_bounds(Line(0));
    assert_eq!(bounds, Some((Line(1), Line(4))));
    for line in 1..=4 {
        assert_eq!(term.output_bounds(Line(line)), bounds);
    }
}

#[test]
fn prompt_navigation_returns_to_start() {
    let term = three_commands();
    for prompt in [-4, -2, 2] {
        if let Some(next) = term.find_prompt(Line(prompt), Direction::Right) {
            assert_eq!(term.find_prompt(next, Direction::Left), Some(Line(prompt)));
        }
        if let Some(previous) = term.find_prompt(Line(prompt), Direction::Left) {
            assert_eq!(term.find_prompt(previous, Direction::Right), Some(Line(prompt)));
        }
    }
}
