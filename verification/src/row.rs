//! A row: a line of text and the styles of its columns.

use crate::line;
use crate::line::{has_line_break, lemma_painted_fits, Line, LineError};
use crate::spans;
use crate::spans::{
    end_of, lemma_seek, lemma_seek_finds, lemma_seek_from, lemma_start_step, seek, start_of,
    style_at, total_width, Span, Spans,
};
use crate::style::Style;
use crate::unicode::{
    cells, cells_at, lemma_cells_within, lemma_text_ends, next_cluster, width_at, width_of,
    CellView,
};
use vstd::prelude::*;
use vstd::string::StringSliceAdditionalSpecFns;
use vstd::utf8::*;

verus! {

/// The runs of a row after `str` is painted in `style` at `column`: a run as
/// wide as what is written on the line is painted over them.
pub open spec fn painted_runs(
    text: Seq<u8>,
    runs: Seq<Span>,
    column: nat,
    str: Seq<u8>,
    style: Style,
) -> Seq<Span> {
    spans::painted(
        runs,
        column,
        Span { width: line::painted(text, column, str).1 as u16, style },
    )
}

/// A line and the style runs that cover it. The runs are as wide as the line,
/// whatever is pushed or painted.
#[derive(Eq, PartialEq, Debug)]
pub struct Row {
    line: Line,
    spans: Spans,
}

impl Clone for Row {
    fn clone(&self) -> (row: Self)
        ensures
            row.text() == self.text(),
            row.runs() == self.runs(),
    {
        proof {
            use_type_invariant(self);
        }
        Row { line: self.line.clone(), spans: self.spans.clone() }
    }
}

impl Default for Row {
    fn default() -> (row: Self)
        ensures
            row.text() == Seq::<u8>::empty(),
            row.runs() == Seq::<Span>::empty(),
    {
        Row { line: Line::default(), spans: Spans::default() }
    }
}

impl Row {
    #[verifier::type_invariant]
    spec fn inv(self) -> bool {
        total_width(self.spans@) == width_of(self.line.bytes())
    }

    /// The bytes of the text of the row.
    pub closed spec fn text(self) -> Seq<u8> {
        self.line.bytes()
    }

    /// The style runs of the row.
    pub closed spec fn runs(self) -> Seq<Span> {
        self.spans@
    }

    /// Takes the line and the runs out of the row, which is left empty.
    fn take(&mut self) -> (parts: (Line, Spans))
        ensures
            parts.0.bytes() == old(self).text(),
            parts.1@ == old(self).runs(),
            total_width(parts.1@) == width_of(parts.0.bytes()),
    {
        proof {
            use_type_invariant(&*self);
        }
        let mut row = Row { line: Line::default(), spans: Spans::default() };
        core::mem::swap(self, &mut row);
        (row.line, row.spans)
    }

    /// The row that holds `string` in one run of `style`.
    pub fn new(string: String, style: Style) -> (row: Self)
        requires
            width_of(encode_utf8(string@)) <= u16::MAX,
        ensures
            row.text() == encode_utf8(string@),
            row.runs() == seq![Span { width: width_of(encode_utf8(string@)) as u16, style }],
            total_width(row.runs()) == width_of(row.text()),
    {
        let line = Line::new(string);
        let width = line.width();
        let mut runs: Vec<Span> = Vec::new();
        runs.push(Span { width, style });
        let spans = Spans::new(runs);
        proof {
            assert(spans@ =~= seq![Span { width, style }]);
            reveal_with_fuel(total_width, 2);
        }
        Self { line, spans }
    }

    /// The row that holds `string` in one run of `style`, unless `string` is
    /// too wide for a line.
    pub fn try_new(string: String, style: Style) -> (row: Option<Self>)
        ensures
            row is Some <==> width_of(encode_utf8(string@)) <= u16::MAX,
            row matches Some(row) ==> row.text() == encode_utf8(string@) && row.runs() == seq![
                Span { width: width_of(encode_utf8(string@)) as u16, style },
            ] && total_width(row.runs()) == width_of(row.text()),
    {
        match line::checked_width(string.as_str(), u16::MAX) {
            Some(_) => Some(Self::new(string, style)),
            None => None,
        }
    }

    /// The width of the row in columns.
    pub fn width(&self) -> (width: u16)
        ensures
            width == width_of(self.text()),
            width == total_width(self.runs()),
    {
        proof {
            use_type_invariant(self);
        }
        self.line.width()
    }

    /// The line of the row.
    pub fn line(&self) -> (line: &Line)
        ensures
            line.bytes() == self.text(),
    {
        &self.line
    }

    /// The style runs of the row.
    pub fn spans(&self) -> (spans: &Spans)
        ensures
            spans@ == self.runs(),
    {
        &self.spans
    }

    /// A cursor over the cells of the row, each with its style.
    pub fn cells(&self) -> (cursor: Cells<'_>)
        ensures
            cursor.text() == self.text(),
            cursor.runs() == self.runs(),
            cursor.remaining() == cells(self.text()),
    {
        Cells::new(self)
    }

    /// Adds `str` to the end of the line, and a run of `style` as wide as
    /// what the line gained.
    pub fn push(&mut self, str: &str, style: Style)
        requires
            !str@.contains('\n'),
            width_of(old(self).text()) <= width_of(old(self).text() + str.spec_bytes())
                <= u16::MAX,
        ensures
            final(self).text() == old(self).text() + str.spec_bytes(),
            final(self).runs() == old(self).runs().push(
                Span {
                    width: (width_of(final(self).text()) - width_of(old(self).text())) as u16,
                    style,
                },
            ),
            total_width(final(self).runs()) == width_of(final(self).text()),
    {
        let (mut line, mut spans) = self.take();
        let width = line.push(str);
        spans.push(Span { width, style });
        *self = Row { line, spans };
    }

    /// Adds `str` to the end of the line, and a run of `style` as wide as
    /// what the line gained. A text with a line break is refused, and so is
    /// one with which the line would become narrower, or too wide for a line:
    /// the row is then left as it is.
    pub fn try_push(&mut self, str: &str, style: Style) -> (pushed: Result<(), LineError>)
        ensures
            pushed is Ok <==> !str@.contains('\n') && width_of(old(self).text()) <= width_of(
                old(self).text() + str.spec_bytes(),
            ) <= u16::MAX,
            pushed matches Err(error) ==> {
                &&& final(self).text() == old(self).text()
                &&& final(self).runs() == old(self).runs()
                &&& error == LineError::LineBreak <==> str@.contains('\n')
            },
            pushed is Ok ==> {
                &&& final(self).text() == old(self).text() + str.spec_bytes()
                &&& final(self).runs() == old(self).runs().push(
                    Span {
                        width: (width_of(final(self).text()) - width_of(old(self).text())) as u16,
                        style,
                    },
                )
            },
            total_width(final(self).runs()) == width_of(final(self).text()),
    {
        proof {
            use_type_invariant(&*self);
        }
        let mut line = self.line.clone();
        match line.try_push(str) {
            Ok(_) => {
                self.push(str, style);
                Ok(())
            },
            Err(error) => Err(error),
        }
    }

    /// Paints `str` on the line at `column`, then paints a run of `style` at
    /// `column`, as wide as what was written on the line.
    pub fn paint(&mut self, column: u16, str: &str, style: Style)
        requires
            !str@.contains('\n'),
        ensures
            final(self).text() == line::painted(
                old(self).text(),
                column as nat,
                str.spec_bytes(),
            ).0,
            final(self).runs() == painted_runs(
                old(self).text(),
                old(self).runs(),
                column as nat,
                str.spec_bytes(),
                style,
            ),
            line::painted(old(self).text(), column as nat, str.spec_bytes()).1 <= width_of(
                old(self).text(),
            ) <= u16::MAX,
            width_of(final(self).text()) == width_of(old(self).text()),
            total_width(final(self).runs()) == width_of(final(self).text()),
            column >= width_of(old(self).text()) ==> final(self).text() == old(self).text()
                && final(self).runs() == old(self).runs(),
    {
        proof {
            lemma_painted_fits(self.text(), column as nat, str.spec_bytes());
        }
        let (mut line, mut spans) = self.take();
        let width = line.paint(column, str);
        spans.paint(column, Span { width, style });
        *self = Row { line, spans };
    }

    /// Paints `str` in `style` at `column`, as `paint` does. A text with a
    /// line break is refused: the row is then left as it is.
    pub fn try_paint(&mut self, column: u16, str: &str, style: Style) -> (painted: Result<
        (),
        LineError,
    >)
        ensures
            painted is Err <==> str@.contains('\n'),
            painted matches Err(error) ==> {
                &&& error == LineError::LineBreak
                &&& final(self).text() == old(self).text()
                &&& final(self).runs() == old(self).runs()
            },
            painted is Ok ==> {
                &&& final(self).text() == line::painted(
                    old(self).text(),
                    column as nat,
                    str.spec_bytes(),
                ).0
                &&& final(self).runs() == painted_runs(
                    old(self).text(),
                    old(self).runs(),
                    column as nat,
                    str.spec_bytes(),
                    style,
                )
                &&& line::painted(old(self).text(), column as nat, str.spec_bytes()).1
                    <= width_of(old(self).text())
            },
            width_of(final(self).text()) == width_of(old(self).text()),
            total_width(final(self).runs()) == width_of(final(self).text()),
    {
        proof {
            use_type_invariant(&*self);
        }
        if has_line_break(str) {
            Err(LineError::LineBreak)
        } else {
            self.paint(column, str, style);
            Ok(())
        }
    }
}

/// A cell of a row: a cluster of non-zero width, where it lies on the screen
/// and how it is drawn.
#[derive(Copy, Clone, Eq, PartialEq, Debug)]
pub struct Cell<'a> {
    /// The style of the run that covers the first column of the cell.
    pub style: Style,
    /// The first column that the cluster covers.
    pub column: u16,
    /// The number of columns it covers: 1 or 2.
    pub width: u16,
    /// The cluster itself.
    pub str: &'a str,
}

/// A cursor over the cells of a row. Each cell of the line comes with the
/// style of the run that covers its first column.
#[derive(Debug)]
pub struct Cells<'a> {
    text: &'a str,
    spans: &'a Spans,
    index: usize,
    column: u16,
    run: usize,
    start: u16,
}

impl<'a> Clone for Cells<'a> {
    fn clone(&self) -> (cursor: Self)
        ensures
            cursor == *self,
    {
        proof {
            use_type_invariant(self);
        }
        Cells {
            text: self.text,
            spans: self.spans,
            index: self.index,
            column: self.column,
            run: self.run,
            start: self.start,
        }
    }
}

impl<'a> Cells<'a> {
    #[verifier::type_invariant]
    spec fn inv(self) -> bool {
        let bytes = self.text.spec_bytes();
        let runs = self.spans@;
        &&& self.index <= bytes.len()
        &&& is_char_boundary(bytes, self.index as int)
        &&& self.column + width_at(bytes, self.index as nat) == width_of(bytes)
        &&& width_of(bytes) == total_width(runs)
        &&& total_width(runs) <= u16::MAX
        &&& self.run <= runs.len()
        &&& self.start == start_of(runs, self.run as int)
        &&& forall|i: int| 0 <= i < self.run ==> end_of(runs, i) <= self.column
    }

    /// The bytes of the text of the row.
    pub closed spec fn text(self) -> Seq<u8> {
        self.text.spec_bytes()
    }

    /// The style runs of the row.
    pub closed spec fn runs(self) -> Seq<Span> {
        self.spans@
    }

    /// The cells of the line still to come.
    pub closed spec fn remaining(self) -> Seq<CellView> {
        cells_at(self.text.spec_bytes(), self.index as nat, self.column as nat)
    }

    /// A cursor before the first cell of `row`.
    pub fn new(row: &'a Row) -> (cursor: Self)
        ensures
            cursor.text() == row.text(),
            cursor.runs() == row.runs(),
            cursor.remaining() == cells(row.text()),
    {
        proof {
            use_type_invariant(row);
        }
        let text = row.line.as_str();
        proof {
            lemma_text_ends(text@);
            assert(row.spans@.take(0) =~= Seq::<Span>::empty());
        }
        Cells { text, spans: &row.spans, index: 0, column: 0, run: 0, start: 0 }
    }

    /// The next cell, if there is one.
    pub fn next(&mut self) -> (cell: Option<Cell<'a>>)
        ensures
            final(self).text() == old(self).text(),
            final(self).runs() == old(self).runs(),
            cell is None ==> old(self).remaining().len() == 0 && final(self).remaining().len() == 0,
            cell matches Some(c) ==> {
                let line = old(self).remaining()[0];
                &&& old(self).remaining().len() > 0
                &&& final(self).remaining() == old(self).remaining().drop_first()
                &&& c.column == line.column
                &&& c.width == line.width
                &&& c.str.spec_bytes() == old(self).text().subrange(
                    line.index as int,
                    line.end() as int,
                )
                &&& c.style == style_at(old(self).runs(), line.column)
            },
    {
        proof {
            use_type_invariant(&*self);
        }
        let ghost runs = self.spans@;
        let cluster = match next_cluster(self.text, self.index) {
            Some(cluster) => cluster,
            None => {
                return None;
            },
        };
        let ghost more = cells_at(
            self.text.spec_bytes(),
            cluster.end(),
            self.column as nat + cluster.width as nat,
        );
        proof {
            let limit = self.column as nat + 1;
            assert(self.remaining().drop_first() =~= more);
            if self.run > 0 {
                lemma_start_step(runs, self.run - 1);
            }
            lemma_seek_from(runs, self.run as int, limit);
            lemma_seek_finds(runs, self.run as int, limit);
            lemma_seek(runs, self.run as int, limit);
        }
        let (run, start) = self.spans.seek_run(self.run, self.start, self.column as u32 + 1);
        let cell = Cell {
            style: self.spans.run(run).style,
            column: self.column,
            width: cluster.width,
            str: cluster.str,
        };
        *self = Cells {
            text: self.text,
            spans: self.spans,
            index: cluster.index + cluster.len,
            column: self.column + cluster.width,
            run,
            start,
        };
        Some(cell)
    }
}

} // verus!
