//! A line of text with a fixed width in columns.

pub mod cell;

use crate::line::cell::Cells;
use crate::unicode::{
    cells, cells_at, lemma_cells_side_by_side, lemma_cells_within, lemma_encode_add,
    lemma_text_ends, next_cluster, width_at, width_of, CellView, Cluster,
};
use vstd::prelude::*;
use vstd::string::{StringExecFns, StringSliceAdditionalSpecFns};
use vstd::utf8::*;

verus! {

/// The number of cells at the head of `cells` that end before column `limit`.
pub open spec fn count_before(cells: Seq<CellView>, limit: nat) -> nat
    decreases cells.len(),
{
    if cells.len() == 0 || cells[0].right() >= limit {
        0
    } else {
        1 + count_before(cells.drop_first(), limit)
    }
}

/// How far a walk over the cells of a text went.
pub struct Walk<'a> {
    /// The first cell that ends at or after the limit, if there is one.
    pub found: Option<Cluster<'a>>,
    /// The column reached: where `found` starts, or would start.
    pub column: u16,
    /// The offset just after the last cell passed.
    pub end: usize,
}

/// Walks the cells of `text` from byte `from`, the first of them placed at
/// `column`, up to the first cell that ends at or after column `limit`.
pub fn walk<'a>(text: &'a str, from: usize, column: u16, limit: u32) -> (walk: Walk<'a>)
    requires
        from <= text.spec_bytes().len(),
        is_char_boundary(text.spec_bytes(), from as int),
        column < limit <= 0x1_0000,
    ensures
        ({
            let bytes = text.spec_bytes();
            let pending = cells_at(bytes, from as nat, column as nat);
            let passed = count_before(pending, limit as nat) as int;
            &&& passed <= pending.len()
            &&& walk.found is None <==> passed == pending.len()
            &&& walk.column == if passed == 0 {
                column as nat
            } else {
                pending[passed - 1].right()
            }
            &&& walk.end == if passed == 0 {
                from as nat
            } else {
                pending[passed - 1].end()
            }
            &&& walk.column < limit
            &&& from <= walk.end <= bytes.len()
            &&& is_char_boundary(bytes, walk.end as int)
            &&& walk.found is None ==> column + width_at(bytes, from as nat) == walk.column
            &&& walk.found matches Some(cluster) ==> {
                &&& pending[passed] == cluster.at(walk.column as nat)
                &&& pending.skip(passed) == seq![cluster.at(walk.column as nat)] + cells_at(
                    bytes,
                    cluster.end(),
                    walk.column as nat + cluster.width as nat,
                )
                &&& walk.column + cluster.width >= limit
                &&& 1 <= cluster.width <= 2
                &&& walk.end <= cluster.index
                &&& cluster.len > 0
                &&& cluster.end() <= bytes.len() <= usize::MAX
                &&& is_char_boundary(bytes, cluster.index as int)
                &&& is_char_boundary(bytes, cluster.end() as int)
                &&& column + width_at(bytes, from as nat) == walk.column + cluster.width + width_at(
                    bytes,
                    cluster.end(),
                )
            }
        }),
{
    let ghost bytes = text.spec_bytes();
    let ghost pending = cells_at(bytes, from as nat, column as nat);
    let ghost seen = Seq::<CellView>::empty();
    let total = text.as_bytes().len();
    let mut index: usize = from;
    let mut reached: u16 = column;
    let mut end: usize = from;
    proof {
        assert(pending =~= seen + pending);
    }
    loop
        invariant
            bytes == text.spec_bytes(),
            pending == cells_at(bytes, from as nat, column as nat),
            total == bytes.len(),
            from <= end <= index <= total,
            is_char_boundary(bytes, index as int),
            is_char_boundary(bytes, end as int),
            reached < limit <= 0x1_0000,
            pending == seen + cells_at(bytes, index as nat, reached as nat),
            count_before(pending, limit as nat) == seen.len() + count_before(
                cells_at(bytes, index as nat, reached as nat),
                limit as nat,
            ),
            reached == if seen.len() == 0 {
                column as nat
            } else {
                seen.last().right()
            },
            end == if seen.len() == 0 {
                from as nat
            } else {
                seen.last().end()
            },
            column + width_at(bytes, from as nat) == reached + width_at(bytes, index as nat),
        decreases total - index,
    {
        let ghost current = cells_at(bytes, index as nat, reached as nat);
        let cluster = match next_cluster(text, index) {
            Some(cluster) => cluster,
            None => {
                proof {
                    assert(current =~= Seq::<CellView>::empty());
                    assert(pending =~= seen);
                }
                return Walk { found: None, column: reached, end };
            },
        };
        let ghost rest = cells_at(bytes, cluster.end(), reached as nat + cluster.width as nat);
        proof {
            assert(current == seq![cluster.at(reached as nat)] + rest);
            assert(current.drop_first() =~= rest);
        }
        if reached as u32 + cluster.width as u32 >= limit {
            proof {
                assert(pending.skip(seen.len() as int) =~= current);
            }
            return Walk { found: Some(cluster), column: reached, end };
        }
        proof {
            seen = seen.push(cluster.at(reached as nat));
            assert(pending =~= seen + rest);
        }
        reached = reached + cluster.width;
        index = cluster.index + cluster.len;
        end = index;
    }
}

/// The width in columns of `str`.
pub fn width(str: &str) -> (width: u16)
    requires
        width_of(str.spec_bytes()) <= u16::MAX,
    ensures
        width == width_of(str.spec_bytes()),
{
    proof {
        lemma_text_ends(str@);
    }
    walk(str, 0, 0, 0x1_0000).column
}

/// The width in columns of `str`, if it is at most `limit`.
pub fn checked_width(str: &str, limit: u16) -> (width: Option<u16>)
    ensures
        width is Some <==> width_of(str.spec_bytes()) <= limit,
        width matches Some(w) ==> w == width_of(str.spec_bytes()),
{
    proof {
        lemma_text_ends(str@);
    }
    let walk = walk(str, 0, 0, limit as u32 + 1);
    match walk.found {
        Some(_) => None,
        None => Some(walk.column),
    }
}

/// Whether `str` holds a line break. A line is one row of the screen: text
/// with a line break in it can be neither pushed nor painted.
pub fn has_line_break(str: &str) -> (found: bool)
    ensures
        found == str@.contains('\n'),
{
    broadcast use vstd::string::group_string_axioms;

    let chars = str.chars();
    for c in it: chars
        invariant
            it.seq() == str@,
            forall|i: int| 0 <= i < it.index() ==> it.seq()[i] != '\n',
    {
        if c == '\n' {
            return true;
        }
    }
    false
}

/// The zero-width non-joiner. It is put on both sides of painted text, so
/// that what is painted does not combine with what stands beside it.
pub const ZWNJ: char = '\u{200C}';

/// What is put before painted text. When painting starts on the second
/// column of a wide cell, a space takes the place of its first column.
pub open spec fn before(wide: bool) -> Seq<char> {
    if wide {
        seq![' ', ZWNJ]
    } else {
        seq![ZWNJ]
    }
}

/// What is put after painted text. When painting ends on the first column of
/// a wide cell, a space takes the place of its second column.
pub open spec fn after(wide: bool) -> Seq<char> {
    if wide {
        seq![ZWNJ, ' ']
    } else {
        seq![ZWNJ]
    }
}

/// Where painted text goes into a line.
pub struct Splice {
    /// The bytes of the painted text that fit: whole cells only.
    pub kept: nat,
    /// The width in columns of what fits.
    pub width: nat,
    /// Offset of the first cell of the line that is painted over.
    pub start: nat,
    /// Offset just after the last cell of the line that is painted over.
    pub end: nat,
    /// Whether painting starts on the second column of a wide cell.
    pub wide_start: bool,
    /// Whether painting ends on the first column of a wide cell.
    pub wide_end: bool,
}

/// Where `text` goes when painted at `column` into `line`, for a column
/// before the width of the line. The text is cropped, cell by cell, to the
/// columns from `column` to the end of the line. The cells painted over run
/// from the one that covers `column` to the one that covers the last column
/// written; a wide cell covered in half is painted over whole.
pub open spec fn splice(line: Seq<u8>, column: nat, text: Seq<u8>) -> Splice {
    let room = (width_of(line) - column) as nat;
    let new = cells(text);
    let fit = count_before(new, room + 1) as int;
    let kept = if fit == 0 {
        0
    } else {
        new[fit - 1].end()
    };
    let width = if fit == 0 {
        0
    } else {
        new[fit - 1].right()
    };
    let old = cells(line);
    let rest = old.skip(count_before(old, column + 1) as int);
    let first = rest[0];
    let last = rest[count_before(rest, column + width) as int];
    Splice {
        kept,
        width,
        start: first.index,
        end: last.end(),
        wide_start: first.column != column,
        wide_end: last.right() != column + width,
    }
}

/// The line with the cells of the splice replaced by the cropped text, a
/// non-joiner on each side of it, and a space for each wide cell cut in half.
pub open spec fn spliced(line: Seq<u8>, splice: Splice, text: Seq<u8>) -> Seq<u8> {
    line.take(splice.start as int) + encode_utf8(before(splice.wide_start)) + text.take(
        splice.kept as int,
    ) + encode_utf8(after(splice.wide_end)) + line.skip(splice.end as int)
}

/// The line after painting `text` at `column`, and the width written.
/// Nothing is written at or after the end of the line, nor when no cell of
/// the text fits, nor when the result would not have the width of the line.
pub open spec fn painted(line: Seq<u8>, column: nat, text: Seq<u8>) -> (Seq<u8>, nat) {
    if column >= width_of(line) {
        (line, 0)
    } else {
        let splice = splice(line, column, text);
        let result = spliced(line, splice, text);
        if splice.width == 0 || width_of(result) != width_of(line) {
            (line, 0)
        } else {
            (result, splice.width)
        }
    }
}

/// Every cell that `count_before` counts ends before `limit`.
pub proof fn lemma_counted_end_before(cells: Seq<CellView>, limit: nat)
    ensures
        count_before(cells, limit) <= cells.len(),
        forall|k: int|
            0 <= k < count_before(cells, limit) ==> (#[trigger] cells[k]).right() < limit,
    decreases cells.len(),
{
    if cells.len() > 0 && cells[0].right() < limit {
        let rest = cells.drop_first();
        lemma_counted_end_before(rest, limit);
        assert forall|k: int| 0 <= k < count_before(cells, limit) implies (
        #[trigger] cells[k]).right() < limit by {
            if k > 0 {
                assert(cells[k] == rest[k - 1]);
            }
        }
    }
}

/// What is written lies within the line: painting at `column` writes no
/// further than the end of the line.
pub proof fn lemma_painted_fits(line: Seq<u8>, column: nat, text: Seq<u8>)
    ensures
        painted(line, column, text).1 <= width_of(line),
        painted(line, column, text).1 == 0 || column + painted(line, column, text).1 <= width_of(
            line,
        ),
{
    if column < width_of(line) {
        let room = (width_of(line) - column) as nat;
        lemma_counted_end_before(cells(text), room + 1);
    }
}

/// `count_before` stops at the first cell that ends at or after `limit`.
pub proof fn lemma_count_before(cells: Seq<CellView>, limit: nat, count: int)
    requires
        0 <= count <= cells.len(),
        forall|k: int| 0 <= k < count ==> (#[trigger] cells[k]).right() < limit,
        count < cells.len() ==> cells[count].right() >= limit,
    ensures
        count_before(cells, limit) == count,
    decreases cells.len(),
{
    if count > 0 {
        let rest = cells.drop_first();
        assert(cells[0].right() < limit);
        assert forall|k: int| 0 <= k < count - 1 implies (#[trigger] rest[k]).right() < limit by {
            assert(rest[k] == cells[k + 1]);
        }
        if count < cells.len() {
            assert(rest[count - 1] == cells[count]);
        }
        lemma_count_before(rest, limit, count - 1);
    }
}

/// Painting at column 0 a text that is as wide as the line replaces all that
/// is seen of the line: the bytes from the start of its first cell to the end
/// of its last cell give way to the whole of the text, up to the end of its
/// last cell, between two non-joiners. The whole width is written, so long
/// as the line keeps its width with the text in it.
pub proof fn lemma_paint_whole_line(line: Seq<u8>, text: Seq<u8>)
    requires
        0 < width_of(line),
        width_of(text) == width_of(line),
    ensures
        cells(line).len() > 0,
        cells(text).len() > 0,
        splice(line, 0, text) == (Splice {
            kept: cells(text).last().end(),
            width: width_of(line),
            start: cells(line)[0].index,
            end: cells(line).last().end(),
            wide_start: false,
            wide_end: false,
        }),
        painted(line, 0, text) == if width_of(spliced(line, splice(line, 0, text), text))
            == width_of(line) {
            (
                line.take(cells(line)[0].index as int) + encode_utf8(seq![ZWNJ]) + text.take(
                    cells(text).last().end() as int,
                ) + encode_utf8(seq![ZWNJ]) + line.skip(cells(line).last().end() as int),
                width_of(line),
            )
        } else {
            (line, 0nat)
        },
{
    let width = width_of(line);
    let old = cells(line);
    let new = cells(text);
    lemma_cells_side_by_side(line, 0, 0);
    lemma_cells_side_by_side(text, 0, 0);
    lemma_cells_within(line, 0, 0);
    lemma_cells_within(text, 0, 0);
    lemma_count_before(new, width + 1, new.len() as int);
    lemma_count_before(old, 1, 0);
    assert(old.skip(0) =~= old);
    lemma_rights_grow(old, old.len() - 1);
    lemma_count_before(old, width, old.len() - 1);
}

/// Among cells that lie side by side, each ends after those before it.
proof fn lemma_rights_grow(cells: Seq<CellView>, last: int)
    requires
        0 <= last < cells.len(),
        forall|k: int| 0 <= k < cells.len() ==> 1 <= (#[trigger] cells[k]).width,
        forall|k: int|
            0 <= k < cells.len() - 1 ==> (#[trigger] cells[k]).right() == cells[k + 1].column,
    ensures
        forall|k: int| 0 <= k < last ==> (#[trigger] cells[k]).right() < cells[last].right(),
    decreases last,
{
    if last > 0 {
        lemma_rights_grow(cells, last - 1);
        assert(cells[last - 1].right() == cells[last].column);
    }
}

/// Why a text is not taken into a line.
#[derive(Copy, Clone, Eq, PartialEq, Debug)]
pub enum LineError {
    /// The text holds a line break.
    LineBreak,
    /// With the text the line would be narrower than before, or wider than a
    /// line can be.
    Width,
}

/// A line of text. Its width in columns is that of its text, and painting
/// never changes it.
#[derive(Eq, PartialEq, Debug)]
pub struct Line {
    string: String,
    width: u16,
}

impl Default for Line {
    fn default() -> (line: Self)
        ensures
            line.bytes() == Seq::<u8>::empty(),
    {
        Line { string: String::new(), width: 0 }
    }
}

impl Clone for Line {
    fn clone(&self) -> (line: Self)
        ensures
            line.bytes() == self.bytes(),
    {
        proof {
            use_type_invariant(self);
        }
        Line { string: self.string.clone(), width: self.width }
    }
}

impl Line {
    #[verifier::type_invariant]
    spec fn inv(self) -> bool {
        self.width == width_of(encode_utf8(self.string@))
    }

    /// The bytes of the text of the line.
    pub closed spec fn bytes(self) -> Seq<u8> {
        encode_utf8(self.string@)
    }

    /// The line that holds `string`.
    pub fn new(string: String) -> (line: Self)
        requires
            width_of(encode_utf8(string@)) <= u16::MAX,
        ensures
            line.bytes() == encode_utf8(string@),
    {
        let width = width(string.as_str());
        Self { width, string }
    }

    /// The line that holds `string`, unless it is too wide for a line.
    pub fn try_new(string: String) -> (line: Option<Self>)
        ensures
            line is Some <==> width_of(encode_utf8(string@)) <= u16::MAX,
            line matches Some(line) ==> line.bytes() == encode_utf8(string@),
    {
        match checked_width(string.as_str(), u16::MAX) {
            Some(_) => Some(Self::new(string)),
            None => None,
        }
    }

    /// The width of the line in columns.
    pub fn width(&self) -> (width: u16)
        ensures
            width == width_of(self.bytes()),
    {
        proof {
            use_type_invariant(self);
        }
        self.width
    }

    /// The text of the line.
    pub fn as_str(&self) -> (str: &str)
        ensures
            str.spec_bytes() == self.bytes(),
            width_of(str.spec_bytes()) <= u16::MAX,
    {
        proof {
            use_type_invariant(self);
        }
        self.string.as_str()
    }

    /// A cursor over the cells of the line.
    pub fn cells(&self) -> (cursor: Cells<'_>)
        ensures
            cursor.text() == self.bytes(),
            cursor.remaining() == cells(self.bytes()),
    {
        proof {
            use_type_invariant(self);
        }
        Cells::new(self.string.as_str())
    }

    /// Adds `str` to the end of the line and returns the width added. Where
    /// the end of the line and the start of `str` make one cluster, the line
    /// gets the width of that cluster in place of the width that the end of
    /// the line had alone.
    pub fn push(&mut self, str: &str) -> (added: u16)
        requires
            !str@.contains('\n'),
            width_of(old(self).bytes()) <= width_of(old(self).bytes() + str.spec_bytes())
                <= u16::MAX,
        ensures
            final(self).bytes() == old(self).bytes() + str.spec_bytes(),
            added == width_of(final(self).bytes()) - width_of(old(self).bytes()),
    {
        proof {
            use_type_invariant(&*self);
            lemma_encode_add(self.string@, str@);
        }
        let mut string = String::new();
        string.append(self.string.as_str());
        string.append(str);
        assert(string@ =~= self.string@ + str@);
        let width = width(string.as_str());
        let added = width - self.width;
        *self = Line { string, width };
        added
    }

    /// Adds `str` to the end of the line and returns the width added. A text
    /// with a line break is refused, and so is one with which the line would
    /// become narrower, or too wide for a line: the line is then left as it
    /// is.
    pub fn try_push(&mut self, str: &str) -> (added: Result<u16, LineError>)
        ensures
            added is Ok <==> !str@.contains('\n') && width_of(old(self).bytes()) <= width_of(
                old(self).bytes() + str.spec_bytes(),
            ) <= u16::MAX,
            added matches Err(error) ==> final(self).bytes() == old(self).bytes() && (error
                == LineError::LineBreak <==> str@.contains('\n')),
            added matches Ok(added) ==> final(self).bytes() == old(self).bytes()
                + str.spec_bytes() && added == width_of(final(self).bytes()) - width_of(
                old(self).bytes(),
            ),
    {
        if has_line_break(str) {
            return Err(LineError::LineBreak);
        }
        proof {
            use_type_invariant(&*self);
            lemma_encode_add(self.string@, str@);
        }
        let mut string = String::new();
        string.append(self.string.as_str());
        string.append(str);
        assert(string@ =~= self.string@ + str@);
        match checked_width(string.as_str(), u16::MAX) {
            Some(width) => {
                if width >= self.width {
                    Ok(self.push(str))
                } else {
                    Err(LineError::Width)
                }
            },
            None => Err(LineError::Width),
        }
    }

    /// Overwrites the columns from `column` on with `str`, as `paint` does,
    /// and returns the width written. A text with a line break is refused:
    /// the line is then left as it is.
    pub fn try_paint(&mut self, column: u16, str: &str) -> (written: Result<u16, LineError>)
        ensures
            written is Err <==> str@.contains('\n'),
            written matches Err(error) ==> error == LineError::LineBreak && final(self).bytes()
                == old(self).bytes(),
            written matches Ok(written) ==> {
                &&& final(self).bytes() == painted(
                    old(self).bytes(),
                    column as nat,
                    str.spec_bytes(),
                ).0
                &&& written == painted(old(self).bytes(), column as nat, str.spec_bytes()).1
            },
            width_of(final(self).bytes()) == width_of(old(self).bytes()) <= u16::MAX,
    {
        proof {
            use_type_invariant(&*self);
        }
        if has_line_break(str) {
            Err(LineError::LineBreak)
        } else {
            Ok(self.paint(column, str))
        }
    }

    /// Overwrites the columns from `column` on with `str`, cropped to the end
    /// of the line, and returns the width written. The width of the line does
    /// not change.
    pub fn paint(&mut self, column: u16, str: &str) -> (written: u16)
        requires
            !str@.contains('\n'),
        ensures
            final(self).bytes() == painted(old(self).bytes(), column as nat, str.spec_bytes()).0,
            written == painted(old(self).bytes(), column as nat, str.spec_bytes()).1,
            width_of(final(self).bytes()) == width_of(old(self).bytes()) <= u16::MAX,
            column >= width_of(old(self).bytes()) ==> written == 0 && final(self).bytes()
                == old(self).bytes(),
            written <= width_of(old(self).bytes()) - column || written == 0,
    {
        proof {
            use_type_invariant(&*self);
            lemma_text_ends(self.string@);
            lemma_text_ends(str@);
        }
        // Nothing to do when `column` is outside the line
        if column >= self.width {
            return 0;
        }
        let ghost line = self.bytes();
        let ghost plan = splice(line, column as nat, str.spec_bytes());

        // Crop `str` to the available width
        let cropped = walk(str, 0, 0, (self.width - column) as u32 + 1);
        let kept = cropped.end;
        let width = cropped.column;
        if width == 0 {
            return 0;
        }
        assert(plan.kept == kept && plan.width == width);

        // Find the cell at `column`
        let string = self.string.as_str();
        let ghost old = cells(line);
        let ghost rest = old.skip(count_before(old, column as nat + 1) as int);
        let located = walk(string, 0, 0, column as u32 + 1);
        let first = match located.found {
            Some(first) => first,
            // `column` lies within the line: a cell covers it
            None => {
                return 0;
            },
        };
        assert(rest[0] == first.at(located.column as nat));
        // We might start on a wide cell: it is painted over whole
        let start = first.index;
        let wide_start = located.column != column;

        // Find the cell at `column + width`
        let target = column as u32 + width as u32;
        let (last, last_column) = if located.column as u32 + first.width as u32 >= target {
            (first, located.column)
        } else {
            let ghost more = cells_at(line, first.end(), located.column as nat + first.width as nat);
            proof {
                assert(rest.drop_first() =~= more);
            }
            let located = walk(
                string,
                first.index + first.len,
                located.column + first.width,
                target,
            );
            match located.found {
                Some(last) => (last, located.column),
                // `column + width` lies within the line: a cell ends there
                None => {
                    return 0;
                },
            }
        };
        assert(rest[count_before(rest, column as nat + width as nat) as int] == last.at(
            last_column as nat,
        ));
        // We might end on a wide cell: it is painted over whole
        let end = last.index + last.len;
        let wide_end = last_column as u32 + last.width as u32 != target;
        assert(plan.start == start && plan.end == end && plan.wide_start == wide_start
            && plan.wide_end == wide_end);

        // Put `str` in the place of the cells, a non-joiner on each side
        let (head, _) = string.split_at(start);
        let (_, tail) = string.split_at(end);
        let (text, _) = str.split_at(kept);
        let lead = if wide_start {
            " \u{200C}"
        } else {
            "\u{200C}"
        };
        let trail = if wide_end {
            "\u{200C} "
        } else {
            "\u{200C}"
        };
        let mut result = String::new();
        result.append(head);
        result.append(lead);
        result.append(text);
        result.append(trail);
        result.append(tail);
        proof {
            reveal_strlit(" \u{200C}");
            reveal_strlit("\u{200C}");
            reveal_strlit("\u{200C} ");
            assert(lead@ =~= before(wide_start));
            assert(trail@ =~= after(wide_end));
            assert(result@ =~= head@ + lead@ + text@ + trail@ + tail@);
            lemma_encode_add(head@, lead@);
            lemma_encode_add(head@ + lead@, text@);
            lemma_encode_add(head@ + lead@ + text@, trail@);
            lemma_encode_add(head@ + lead@ + text@ + trail@, tail@);
            assert(head.spec_bytes() =~= line.take(start as int));
            assert(tail.spec_bytes() =~= line.skip(end as int));
            assert(text.spec_bytes() =~= str.spec_bytes().take(kept as int));
            assert(encode_utf8(result@) =~= spliced(line, plan, str.spec_bytes()));
        }

        // The line keeps its width, or it stays as it was
        match checked_width(result.as_str(), self.width) {
            Some(total) => {
                if total == self.width {
                    self.string = result;
                    width
                } else {
                    0
                }
            },
            None => 0,
        }
    }
}

} // verus!
