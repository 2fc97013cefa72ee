//! A canvas: rows of one width, one below the other.

use crate::line;
use crate::line::{has_line_break, LineError};
use crate::row::{painted_runs, Row};
use crate::style::Style;
use crate::unicode::width_of;
use vstd::prelude::*;
use vstd::string::StringSliceAdditionalSpecFns;

verus! {

/// Why rows do not make a canvas.
#[derive(Copy, Clone, Eq, PartialEq, Debug)]
pub enum CanvasError {
    /// Row `row` is not as wide as the row above it.
    WidthMismatch { row: usize },
}

/// Whether all of `rows` have one width.
pub open spec fn same_width(rows: Seq<Row>) -> bool {
    forall|i: int, j: int|
        0 <= i < rows.len() && 0 <= j < rows.len() ==> width_of(#[trigger] rows[i].text())
            == width_of(#[trigger] rows[j].text())
}

/// What painting `str` in `style` at `column` of row `line` makes of the rows
/// `before`: row `line` is painted, every other row stays as it is. Without a
/// row `line`, all rows stay as they are.
pub open spec fn painted_row(
    before: Seq<Row>,
    after: Seq<Row>,
    line: int,
    column: nat,
    str: Seq<u8>,
    style: Style,
) -> bool {
    &&& after.len() == before.len()
    &&& forall|i: int| 0 <= i < before.len() && i != line ==> after[i] == before[i]
    &&& line >= before.len() ==> after == before
    &&& 0 <= line < before.len() ==> {
        let written = line::painted(before[line].text(), column, str);
        &&& after[line].text() == written.0
        &&& after[line].runs() == painted_runs(
            before[line].text(),
            before[line].runs(),
            column,
            str,
            style,
        )
        &&& written.1 <= width_of(before[line].text()) <= u16::MAX
        &&& width_of(after[line].text()) == width_of(before[line].text())
        &&& column >= width_of(before[line].text()) ==> after[line].text() == before[line].text()
            && after[line].runs() == before[line].runs()
    }
}

/// Rows of one width, from the top of the screen down.
#[derive(Debug)]
pub struct Canvas {
    rows: Vec<Row>,
}

impl View for Canvas {
    type V = Seq<Row>;

    closed spec fn view(&self) -> Seq<Row> {
        self.rows@
    }
}

impl Default for Canvas {
    fn default() -> (canvas: Self)
        ensures
            canvas@ == Seq::<Row>::empty(),
    {
        Canvas { rows: Vec::new() }
    }
}

impl Clone for Canvas {
    fn clone(&self) -> (canvas: Self)
        ensures
            canvas@.len() == self@.len(),
            forall|i: int|
                0 <= i < self@.len() ==> (#[trigger] canvas@[i]).text() == self@[i].text()
                    && canvas@[i].runs() == self@[i].runs(),
    {
        proof {
            use_type_invariant(self);
        }
        let mut rows: Vec<Row> = Vec::new();
        let mut index: usize = 0;
        while index < self.rows.len()
            invariant
                index <= self.rows@.len(),
                rows@.len() == index,
                same_width(self.rows@),
                forall|i: int|
                    0 <= i < index ==> (#[trigger] rows@[i]).text() == self.rows@[i].text()
                        && rows@[i].runs() == self.rows@[i].runs(),
            decreases self.rows@.len() - index,
        {
            rows.push(self.rows[index].clone());
            index = index + 1;
        }
        proof {
            assert forall|i: int, j: int|
                0 <= i < rows@.len() && 0 <= j < rows@.len() implies width_of(
                #[trigger] rows@[i].text(),
            ) == width_of(#[trigger] rows@[j].text()) by {
                assert(rows@[i].text() == self.rows@[i].text());
                assert(rows@[j].text() == self.rows@[j].text());
            }
        }
        Canvas { rows }
    }
}

impl Canvas {
    #[verifier::type_invariant]
    spec fn inv(self) -> bool {
        same_width(self.rows@)
    }

    /// The canvas made of `rows`, which must all have one width. Otherwise
    /// the error names the first row that differs from the row above it.
    pub fn new(rows: Vec<Row>) -> (canvas: Result<Self, CanvasError>)
        ensures
            canvas is Ok <==> same_width(rows@),
            canvas matches Ok(canvas) ==> canvas@ == rows@,
            canvas matches Err(CanvasError::WidthMismatch { row }) ==> {
                &&& 0 < row < rows@.len()
                &&& width_of(rows@[row as int].text()) != width_of(rows@[row - 1].text())
                &&& same_width(rows@.take(row as int))
            },
    {
        if rows.len() == 0 {
            return Ok(Canvas { rows });
        }
        let mut row: usize = 1;
        while row < rows.len()
            invariant
                1 <= row <= rows@.len(),
                same_width(rows@.take(row as int)),
            decreases rows@.len() - row,
        {
            if rows[row - 1].width() != rows[row].width() {
                proof {
                    assert(!same_width(rows@));
                }
                return Err(CanvasError::WidthMismatch { row });
            }
            proof {
                let before = rows@.take(row as int);
                let after = rows@.take(row + 1);
                assert forall|i: int, j: int|
                    0 <= i < after.len() && 0 <= j < after.len() implies width_of(
                    #[trigger] after[i].text(),
                ) == width_of(#[trigger] after[j].text()) by {
                    assert(after[row as int] == rows@[row as int]);
                    assert(before[row - 1] == rows@[row - 1]);
                    if i < row {
                        assert(after[i] == before[i]);
                    }
                    if j < row {
                        assert(after[j] == before[j]);
                    }
                    assert(width_of(before[row - 1].text()) == width_of(before[0].text()));
                    if i < row {
                        assert(width_of(before[i].text()) == width_of(before[0].text()));
                    }
                    if j < row {
                        assert(width_of(before[j].text()) == width_of(before[0].text()));
                    }
                }
            }
            row = row + 1;
        }
        proof {
            assert(rows@.take(row as int) =~= rows@);
        }
        Ok(Canvas { rows })
    }

    /// The rows, from the top.
    pub fn rows(&self) -> (rows: &Vec<Row>)
        ensures
            rows@ == self@,
            same_width(rows@),
    {
        proof {
            use_type_invariant(self);
        }
        &self.rows
    }

    /// The width of the canvas: that of its rows, 0 without rows.
    pub fn width(&self) -> (width: u16)
        ensures
            self@.len() == 0 ==> width == 0,
            forall|i: int| 0 <= i < self@.len() ==> width == width_of(#[trigger] self@[i].text()),
    {
        proof {
            use_type_invariant(self);
        }
        if self.rows.len() > 0 {
            self.rows[0].width()
        } else {
            0
        }
    }

    /// Paints `str` in `style` on row `line` at `column`. Nothing happens
    /// when there is no such row.
    pub fn paint(&mut self, line: usize, column: u16, str: &str, style: Style)
        requires
            !str@.contains('\n'),
        ensures
            painted_row(old(self)@, final(self)@, line as int, column as nat, str.spec_bytes(), style),
            same_width(final(self)@),
    {
        proof {
            use_type_invariant(&*self);
        }
        let mut canvas = Canvas::default();
        core::mem::swap(self, &mut canvas);
        let mut rows = canvas.rows;
        let ghost before = rows@;
        if line < rows.len() {
            rows[line].paint(column, str, style);
        }
        proof {
            let after = rows@;
            assert forall|i: int, j: int|
                0 <= i < after.len() && 0 <= j < after.len() implies width_of(
                #[trigger] after[i].text(),
            ) == width_of(#[trigger] after[j].text()) by {
                assert(width_of(after[i].text()) == width_of(before[i].text()));
                assert(width_of(after[j].text()) == width_of(before[j].text()));
            }
            assert(line >= before.len() ==> after =~= before);
        }
        *self = Canvas { rows };
    }

    /// Paints `str` in `style` on row `line` at `column`, as `paint` does. A
    /// text with a line break is refused: the canvas is then left as it is.
    pub fn try_paint(&mut self, line: usize, column: u16, str: &str, style: Style) -> (painted:
        Result<(), LineError>)
        ensures
            painted is Err <==> str@.contains('\n'),
            painted matches Err(error) ==> error == LineError::LineBreak && final(self)@ == old(self)@,
            painted is Ok ==> painted_row(
                old(self)@,
                final(self)@,
                line as int,
                column as nat,
                str.spec_bytes(),
                style,
            ),
            same_width(final(self)@),
    {
        proof {
            use_type_invariant(&*self);
        }
        if has_line_break(str) {
            Err(LineError::LineBreak)
        } else {
            self.paint(line, column, str, style);
            Ok(())
        }
    }
}

} // verus!
