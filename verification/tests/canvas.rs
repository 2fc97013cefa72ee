use tender::canvas::{Canvas, CanvasError};
use tender::line::LineError;
use tender::row::Row;
use tender::style::{Color, Style};

fn row(str: &str) -> Row {
    Row::new(str.to_string(), Style::default())
}

#[test]
fn canvas_of_rows_of_one_width() {
    let canvas = Canvas::new(vec![row("abc"), row("a\u{1F980}"), row("xyz")]).unwrap();
    assert_eq!(canvas.width(), 3);
    assert_eq!(canvas.rows().len(), 3);
}

#[test]
fn canvas_of_rows_of_differing_width_fails() {
    assert_eq!(
        Canvas::new(vec![row("abc"), row("ab")]).unwrap_err(),
        CanvasError::WidthMismatch { row: 1 }
    );
}

#[test]
fn canvas_names_the_first_row_that_differs() {
    assert_eq!(
        Canvas::new(vec![row("ab"), row("cd"), row("efg"), row("h")]).unwrap_err(),
        CanvasError::WidthMismatch { row: 2 }
    );
}

#[test]
fn canvas_without_rows() {
    let canvas = Canvas::new(vec![]).unwrap();
    assert_eq!(canvas.width(), 0);
    assert_eq!(Canvas::default().width(), 0);
}

#[test]
fn canvas_paint_goes_to_one_row() {
    let blue = Style {
        foreground: Color { r: 0, g: 0, b: 255 },
        ..Style::default()
    };
    let mut canvas = Canvas::new(vec![row("abc"), row("def")]).unwrap();
    canvas.paint(1, 1, "x", blue);
    assert_eq!(canvas.rows()[0], row("abc"));
    assert_eq!(canvas.rows()[1].line().as_str(), "d\u{200C}x\u{200C}f");
    let runs: Vec<(u16, Style)> = canvas.rows()[1]
        .spans()
        .iter()
        .map(|span| (span.width, span.style))
        .collect();
    assert_eq!(runs, vec![(1, Style::default()), (1, blue), (1, Style::default())]);
    assert_eq!(canvas.width(), 3);
}

#[test]
fn canvas_paint_outside_changes_nothing() {
    let mut canvas = Canvas::new(vec![row("abc"), row("def")]).unwrap();
    canvas.paint(2, 0, "x", Style::default());
    canvas.paint(usize::MAX, 0, "x", Style::default());
    assert_eq!(canvas.rows()[0], row("abc"));
    assert_eq!(canvas.rows()[1], row("def"));
}

#[test]
fn canvas_clone_keeps_the_rows() {
    let mut canvas = Canvas::new(vec![row("abc"), row("def")]).unwrap();
    canvas.paint(0, 2, "x", Style::default());
    let clone = canvas.clone();
    assert_eq!(clone.rows(), canvas.rows());
    assert_eq!(clone.width(), 3);
}

#[test]
fn canvas_try_paint_refuses_a_line_break() {
    let mut canvas = Canvas::new(vec![row("abc"), row("def")]).unwrap();
    assert_eq!(
        canvas.try_paint(0, 1, "x\n", Style::default()),
        Err(LineError::LineBreak)
    );
    assert_eq!(
        canvas.try_paint(7, 1, "\n", Style::default()),
        Err(LineError::LineBreak)
    );
    assert_eq!(canvas.rows()[0], row("abc"));
    assert_eq!(canvas.rows()[1], row("def"));
}

#[test]
fn canvas_try_paint_paints_other_text() {
    let mut canvas = Canvas::new(vec![row("abc"), row("def")]).unwrap();
    assert_eq!(canvas.try_paint(1, 0, "xy", Style::default()), Ok(()));
    assert_eq!(canvas.rows()[0], row("abc"));
    assert_eq!(canvas.rows()[1].line().as_str(), "\u{200C}xy\u{200C}f");
    assert_eq!(canvas.try_paint(2, 0, "xy", Style::default()), Ok(()));
    assert_eq!(canvas.width(), 3);
}
