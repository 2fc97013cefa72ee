use tender::line::cell::{Cell, Cells};
use tender::line::{checked_width, has_line_break, width, Line, LineError, ZWNJ};

const CRAB_LINE: &str = "abc\u{1F980}d\u{1F980}f";

#[test]
fn line_test() {
    const NUL: &str = "\0";
    const A: &str = "a̐";
    const O: &str = "ö̲";
    const E: &str = "é";
    const CRAB: &str = "🦀";
    const CRLF: &str = "\r\n";

    let cell = |index, column, width, str| Cell {
        index,
        column,
        width,
        str,
    };

    let str = [NUL, A, NUL, O, CRAB, E, CRLF].concat();
    let mut cursor = Cells::new(&str);
    let mut cells = Vec::new();
    while let Some(cell) = cursor.next() {
        cells.push(cell);
    }

    assert_eq!(
        cells,
        [
            cell(1, 0, 1, A),
            cell(2 + A.len(), 1, 1, O),
            cell(2 + A.len() + O.len(), 2, 2, CRAB),
            cell(2 + A.len() + O.len() + CRAB.len(), 4, 1, E),
        ]
    );
}

fn check_new(str: &str, width: u16) {
    let line = Line::new(str.to_string());

    assert_eq!(line.as_str(), str);
    assert_eq!(line.width(), width);
}

#[test]
fn new_empty() {
    check_new("", 0);
}

#[test]
fn new_space() {
    check_new(" ", 1);
}

#[test]
fn new_a() {
    check_new("a", 1);
}

#[test]
fn new_crab() {
    check_new("\u{1F980}", 2);
}

#[test]
fn new_woman_scientist() {
    check_new("\u{1F469}\u{200D}\u{1F52C}", 2);
}

#[test]
fn push_at_every_character() {
    let string = "abc\u{1F980}\u{1F469}\u{200D}\u{1F52C}def";
    let width = 10;
    for (i, _) in string.char_indices() {
        let mut line = Line::new(string[..i].to_string());
        line.push(&string[i..]);

        assert_eq!(line.as_str(), string);
        assert_eq!(line.width(), width);
    }
}

#[test]
fn push_returns_the_width_added() {
    let mut line = Line::new("ab".to_string());
    assert_eq!(line.push("c\u{1F980}"), 3);
    assert_eq!(line.width(), 5);
    assert_eq!(line.push(""), 0);
    assert_eq!(line.as_str(), "abc\u{1F980}");
}

#[test]
fn push_on_an_empty_line() {
    let mut line = Line::new(String::new());
    assert_eq!(line.push("\u{1F980}a"), 3);
    assert_eq!(line.width(), 3);
}

#[test]
fn push_a_combining_mark_adds_no_width() {
    let mut line = Line::new("e".to_string());
    assert_eq!(line.push("\u{301}"), 0);
    assert_eq!(line.width(), 1);
    assert_eq!(line.as_str(), "e\u{301}");
}

#[test]
fn push_completes_a_cluster() {
    // The woman and the joiner are two columns; the whole emoji is two too.
    let mut line = Line::new("\u{1F469}\u{200D}".to_string());
    assert_eq!(line.width(), 2);
    assert_eq!(line.push("\u{1F52C}x"), 1);
    assert_eq!(line.width(), 3);
}

#[test]
fn try_push_adds_what_fits() {
    let mut line = Line::new("ab".to_string());
    assert_eq!(line.try_push("cd"), Ok(2));
    assert_eq!(line.as_str(), "abcd");
    assert_eq!(line.width(), 4);
}

#[test]
fn try_push_refuses_a_line_too_wide() {
    let mut line = Line::new("a".repeat(65_535));
    assert_eq!(line.width(), 65_535);
    assert_eq!(line.try_push("b"), Err(LineError::Width));
    assert_eq!(line.width(), 65_535);
    assert_eq!(line.as_str().len(), 65_535);
    assert_eq!(line.try_push("\u{301}"), Ok(0));
}

#[test]
fn try_new_refuses_a_text_too_wide() {
    assert!(Line::try_new("a".repeat(65_536)).is_none());
    let line = Line::try_new("a".repeat(65_535)).unwrap();
    assert_eq!(line.width(), 65_535);
}

fn paint(initial: &str, column: u16, str: &str) -> (u16, String) {
    let mut line = Line::new(initial.into());
    let width = line.width();

    let w = line.paint(column, str);
    assert_eq!(line.width(), width);

    (w, line.as_str().to_string())
}

#[test]
fn paint_at_0() {
    assert_eq!(
        paint(CRAB_LINE, 0, "!!!"),
        (3, format!("{ZWNJ}!!!{ZWNJ}\u{1F980}d\u{1F980}f"))
    );
}

#[test]
fn paint_at_1() {
    assert_eq!(
        paint(CRAB_LINE, 1, "!!!"),
        (3, format!("a{ZWNJ}!!!{ZWNJ} d\u{1F980}f"))
    );
}

#[test]
fn paint_at_2() {
    assert_eq!(
        paint(CRAB_LINE, 2, "!!!"),
        (3, format!("ab{ZWNJ}!!!{ZWNJ}d\u{1F980}f"))
    );
}

#[test]
fn paint_at_3() {
    assert_eq!(
        paint(CRAB_LINE, 3, "!!!"),
        (3, format!("abc{ZWNJ}!!!{ZWNJ}\u{1F980}f"))
    );
}

#[test]
fn paint_at_4() {
    assert_eq!(
        paint(CRAB_LINE, 4, "!!!"),
        (3, format!("abc {ZWNJ}!!!{ZWNJ} f"))
    );
}

#[test]
fn paint_at_5() {
    assert_eq!(
        paint(CRAB_LINE, 5, "!!!"),
        (3, format!("abc\u{1F980}{ZWNJ}!!!{ZWNJ}f"))
    );
}

#[test]
fn paint_at_6() {
    assert_eq!(
        paint(CRAB_LINE, 6, "!!!"),
        (3, format!("abc\u{1F980}d{ZWNJ}!!!{ZWNJ}"))
    );
}

#[test]
fn paint_at_7() {
    assert_eq!(
        paint(CRAB_LINE, 7, "!!!"),
        (2, format!("abc\u{1F980}d {ZWNJ}!!{ZWNJ}"))
    );
}

#[test]
fn paint_at_8() {
    assert_eq!(
        paint(CRAB_LINE, 8, "!!!"),
        (1, format!("abc\u{1F980}d\u{1F980}{ZWNJ}!{ZWNJ}"))
    );
}

#[test]
fn paint_at_9() {
    assert_eq!(paint(CRAB_LINE, 9, "!!!"), (0, CRAB_LINE.to_string()));
}

#[test]
fn paint_past_the_end_is_a_no_op() {
    assert_eq!(paint(CRAB_LINE, 10, "anything"), (0, CRAB_LINE.to_string()));
    assert_eq!(paint(CRAB_LINE, u16::MAX, "anything"), (0, CRAB_LINE.to_string()));
    assert_eq!(paint("", 0, "anything"), (0, String::new()));
}

#[test]
fn paint_nothing_is_a_no_op() {
    assert_eq!(paint(CRAB_LINE, 2, ""), (0, CRAB_LINE.to_string()));
    assert_eq!(paint(CRAB_LINE, 2, "\0\u{200D}"), (0, CRAB_LINE.to_string()));
}

#[test]
fn paint_crops_cluster_by_cluster() {
    // One column is left: the crab does not fit, so nothing of it is written.
    assert_eq!(paint("abcd", 3, "\u{1F980}"), (0, "abcd".to_string()));
    // Two columns are left: `x` fits, the crab after it does not.
    assert_eq!(
        paint("abcd", 2, "x\u{1F980}"),
        (1, format!("ab{ZWNJ}x{ZWNJ}d"))
    );
}

#[test]
fn paint_a_wide_cell_over_wide_cells() {
    assert_eq!(
        paint("\u{1F980}\u{1F980}", 1, "\u{1F980}"),
        (2, format!(" {ZWNJ}\u{1F980}{ZWNJ} "))
    );
}

#[test]
fn paint_over_the_whole_line() {
    let (written, string) = paint("abc", 0, "xyz");
    assert_eq!((written, string.as_str()), (3, "\u{200C}xyz\u{200C}"));
    let line = Line::new(string);
    let mut cursor = line.cells();
    let mut clusters = Vec::new();
    while let Some(cell) = cursor.next() {
        clusters.push((cell.column, cell.width, cell.str.trim_matches(ZWNJ).to_string()));
    }
    assert_eq!(
        clusters,
        vec![(0, 1, "x".to_string()), (1, 1, "y".to_string()), (2, 1, "z".to_string())]
    );
}

#[test]
fn paint_is_refused_when_the_width_would_change() {
    // A spacing mark joins the cell before it, non-joiner or not, and the
    // wide cell that would come of it is one column short of the line.
    assert_eq!(
        paint("\u{1F980}b", 2, "\u{93E}"),
        (0, "\u{1F980}b".to_string())
    );
}

#[test]
fn paint_many_times_keeps_the_width() {
    let mut line = Line::new(CRAB_LINE.to_string());
    for (column, str) in [(0, "\u{1F980}"), (1, "xy"), (7, "\u{1F980}\u{1F980}"), (4, "e\u{301}"), (8, "z")] {
        line.paint(column, str);
        assert_eq!(line.width(), 9);
        assert_eq!(width(line.as_str()), 9);
    }
}

#[test]
fn width_sums_clamped_clusters() {
    assert_eq!(width(""), 0);
    assert_eq!(width("abc\u{1F980}\u{1F469}\u{200D}\u{1F52C}def"), 10);
    assert_eq!(width("\0a\r\n"), 1);
}

#[test]
fn checked_width_holds_to_its_limit() {
    assert_eq!(checked_width("abc", 3), Some(3));
    assert_eq!(checked_width("abc", 2), None);
    assert_eq!(checked_width("ab\u{1F980}", 3), None);
    assert_eq!(checked_width("", 0), Some(0));
    assert_eq!(checked_width("\0", 0), Some(0));
    assert_eq!(checked_width("a", 0), None);
}

#[test]
fn cells_of_a_line() {
    let line = Line::new(CRAB_LINE.to_string());
    let mut cursor = line.cells();
    let mut cells = Vec::new();
    while let Some(cell) = cursor.next() {
        cells.push((cell.index, cell.column, cell.width, cell.str));
    }
    assert_eq!(
        cells,
        vec![
            (0, 0, 1, "a"),
            (1, 1, 1, "b"),
            (2, 2, 1, "c"),
            (3, 3, 2, "\u{1F980}"),
            (7, 5, 1, "d"),
            (8, 6, 2, "\u{1F980}"),
            (12, 8, 1, "f"),
        ]
    );
}

#[test]
fn clone_and_default() {
    let line = Line::new(CRAB_LINE.to_string());
    assert_eq!(line.clone(), line);
    assert_eq!(Line::default().as_str(), "");
    assert_eq!(Line::default().width(), 0);
}

#[test]
fn paint_a_spacing_mark_joins_the_cell_before_it() {
    // The non-joiner does not part a spacing mark from what stands before
    // it. The line keeps its width, so the text is written.
    let (written, string) = paint("xb", 1, "\u{93E}");
    assert_eq!((written, string.as_str()), (1, "x\u{200C}\u{93E}\u{200C}"));
    let line = Line::new(string);
    let mut cursor = line.cells();
    let cell = cursor.next().unwrap();
    assert_eq!((cell.column, cell.width, cell.str), (0, 2, line.as_str()));
    assert!(cursor.next().is_none());
}

#[test]
fn has_line_break_finds_a_line_feed() {
    assert!(has_line_break("\n"));
    assert!(has_line_break("ab\ncd"));
    assert!(has_line_break("\u{1F980}\r\n"));
    assert!(has_line_break("e\u{301}\n"));
}

#[test]
fn has_line_break_passes_other_text() {
    assert!(!has_line_break(""));
    assert!(!has_line_break("abc"));
    assert!(!has_line_break("a\rb\u{B}\u{C}\u{85}\u{2028}"));
    // U+010A and U+0A0A hold the byte 0x0A in no encoding of theirs.
    assert!(!has_line_break("\u{10A}\u{A0A}"));
}

#[test]
fn try_push_refuses_a_line_break() {
    let mut line = Line::new("ab".to_string());
    assert_eq!(line.try_push("c\nd"), Err(LineError::LineBreak));
    assert_eq!(line.as_str(), "ab");
    assert_eq!(line.width(), 2);
}

#[test]
fn try_push_names_the_line_break_first() {
    let mut line = Line::new("a".repeat(65_535));
    assert_eq!(line.try_push("b\n"), Err(LineError::LineBreak));
    assert_eq!(line.width(), 65_535);
}

#[test]
fn try_paint_refuses_a_line_break() {
    let mut line = Line::new(CRAB_LINE.to_string());
    assert_eq!(line.try_paint(4, "!\n!"), Err(LineError::LineBreak));
    assert_eq!(line.try_paint(9, "\n"), Err(LineError::LineBreak));
    assert_eq!(line.as_str(), CRAB_LINE);
    assert_eq!(line.width(), 9);
}

#[test]
fn try_paint_paints_other_text() {
    let mut line = Line::new(CRAB_LINE.to_string());
    assert_eq!(line.try_paint(4, "!!!"), Ok(3));
    assert_eq!(line.as_str(), "abc \u{200C}!!!\u{200C} f");
    assert_eq!(line.try_paint(9, "!!!"), Ok(0));
    assert_eq!(line.try_paint(7, "\u{1F980}\u{1F980}"), Ok(2));
    assert_eq!(line.width(), 9);
}

#[test]
fn paint_never_writes_past_the_end() {
    for column in 0..12 {
        let mut line = Line::new(CRAB_LINE.to_string());
        let written = line.paint(column, "\u{1F980}x\u{1F980}y\u{1F980}z");
        assert!(written == 0 || column + written <= 9);
        assert_eq!(line.width(), 9);
    }
}
