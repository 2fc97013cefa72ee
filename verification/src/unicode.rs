//! Grapheme clusters and their display widths.
//!
//! Text is addressed in three units: bytes, clusters and columns. Everything
//! here speaks of a text by its UTF-8 bytes, because a cell is found again by
//! its byte offset. Where one cluster ends and how wide a string is drawn are
//! decided by the `unicode-segmentation` and `unicode-width` crates; the rest
//! is built on those two answers.

pub mod cells;
pub mod graphemes;

pub use cells::{Cell, Cells};

use vstd::prelude::*;
use vstd::string::StringSliceAdditionalSpecFns;
use vstd::utf8::*;

verus! {

/// The length in bytes of the first extended grapheme cluster of `text`, as
/// `unicode-segmentation` delimits it.
pub uninterp spec fn grapheme_len(text: Seq<char>) -> nat;

/// The number of columns that `unicode-width` gives to `text`.
pub uninterp spec fn display_width(text: Seq<char>) -> nat;

/// Calls `UnicodeSegmentation::graphemes` with extended clusters and takes
/// the length of the first cluster. The iterator yields nothing for an empty
/// text; otherwise its first item is a non-empty `&str` that starts where the
/// text starts, so its length lies within the text, on a character boundary.
#[verifier::external_body]
fn first_grapheme_len(text: &str) -> (len: Option<usize>)
    ensures
        len is None <==> text@.len() == 0,
        len matches Some(n) ==> n == grapheme_len(text@) && 0 < n <= text.spec_bytes().len()
            && is_char_boundary(text.spec_bytes(), n as int),
{
    unicode_segmentation::UnicodeSegmentation::graphemes(text, true).next().map(|cluster| cluster.len())
}

/// Calls `UnicodeWidthStr::width`: the displayed width of `text` in columns.
#[verifier::external_body]
fn str_width(text: &str) -> (width: usize)
    ensures
        width == display_width(text@),
{
    unicode_width::UnicodeWidthStr::width(text)
}

/// The widest that a cell can be.
pub const MAX_WIDTH: u16 = 2;

/// The width policy: a cluster takes the width computed for it, but never
/// more than two columns.
pub open spec fn clamped(width: nat) -> nat {
    if width > 2 {
        2
    } else {
        width
    }
}

/// Applies the width policy to a computed width.
pub fn clamp(width: usize) -> (cell_width: u16)
    ensures
        cell_width == clamped(width as nat),
{
    if width > 2 {
        MAX_WIDTH
    } else {
        width as u16
    }
}

/// The length in bytes of the cluster with which `bytes` start.
pub open spec fn first_len(bytes: Seq<u8>) -> nat {
    grapheme_len(decode_utf8(bytes))
}

/// The width in columns, after clamping, of the cluster with which `bytes`
/// start. It may be 0.
pub open spec fn first_width(bytes: Seq<u8>) -> nat {
    clamped(display_width(decode_utf8(bytes.subrange(0, first_len(bytes) as int))))
}

/// A cell: a cluster of non-zero width, where it lies in its text and on the
/// screen.
pub struct CellView {
    /// Offset in bytes of the cluster.
    pub index: nat,
    /// Length in bytes of the cluster.
    pub len: nat,
    /// The first column that the cluster covers.
    pub column: nat,
    /// The number of columns it covers: 1 or 2.
    pub width: nat,
}

impl CellView {
    /// The offset just after the cluster.
    pub open spec fn end(self) -> nat {
        self.index + self.len
    }

    /// The column just after the cluster.
    pub open spec fn right(self) -> nat {
        self.column + self.width
    }
}

/// The cells of the text `bytes` from byte `from` on, the first of them placed
/// at `column`. A cluster of width 0 gives no cell: its bytes belong to no
/// cell and it moves no column.
pub open spec fn cells_at(bytes: Seq<u8>, from: nat, column: nat) -> Seq<CellView>
    decreases bytes.len() - from,
{
    let rest = bytes.skip(from as int);
    let len = first_len(rest);
    let width = first_width(rest);
    if from >= bytes.len() || len == 0 || from + len > bytes.len() {
        Seq::empty()
    } else if width == 0 {
        cells_at(bytes, from + len, column)
    } else {
        seq![CellView { index: from, len, column, width }] + cells_at(
            bytes,
            from + len,
            column + width,
        )
    }
}

/// The cells of the text `bytes`.
pub open spec fn cells(bytes: Seq<u8>) -> Seq<CellView> {
    cells_at(bytes, 0, 0)
}

/// The width in columns of the text `bytes` from byte `from` on: the sum of
/// the widths of its clusters.
pub open spec fn width_at(bytes: Seq<u8>, from: nat) -> nat
    decreases bytes.len() - from,
{
    let rest = bytes.skip(from as int);
    let len = first_len(rest);
    if from >= bytes.len() || len == 0 || from + len > bytes.len() {
        0
    } else {
        first_width(rest) + width_at(bytes, from + len)
    }
}

/// The width in columns of the text `bytes`.
pub open spec fn width_of(bytes: Seq<u8>) -> nat {
    width_at(bytes, 0)
}

/// The sum of the widths of `cells`.
pub open spec fn cells_width(cells: Seq<CellView>) -> nat
    decreases cells.len(),
{
    if cells.len() == 0 {
        0
    } else {
        cells[0].width + cells_width(cells.drop_first())
    }
}

/// A cluster of non-zero width found in a text.
#[derive(Copy, Clone, Debug)]
pub struct Cluster<'a> {
    /// Offset in bytes.
    pub index: usize,
    /// Length in bytes.
    pub len: usize,
    /// Width in columns: 1 or 2.
    pub width: u16,
    /// The cluster itself.
    pub str: &'a str,
}

impl<'a> Cluster<'a> {
    /// The cell that this cluster makes when placed at `column`.
    pub open spec fn at(self, column: nat) -> CellView {
        CellView { index: self.index as nat, len: self.len as nat, column, width: self.width as nat }
    }

    /// The offset just after the cluster.
    pub open spec fn end(self) -> nat {
        self.index as nat + self.len as nat
    }
}

/// An offset that lies on a character boundary within a boundary-delimited
/// tail of a text lies on a character boundary of the text.
pub proof fn lemma_boundary_in_tail(bytes: Seq<u8>, from: int, offset: int)
    requires
        valid_utf8(bytes),
        0 <= from <= bytes.len(),
        is_char_boundary(bytes, from),
        0 <= offset <= bytes.len() - from,
        is_char_boundary(bytes.skip(from), offset),
    ensures
        is_char_boundary(bytes, from + offset),
{
    valid_utf8_split(bytes, from);
    assert(bytes.skip(from) =~= bytes.subrange(from, bytes.len() as int));
    if from + offset == bytes.len() {
        is_char_boundary_start_end_of_seq(bytes);
    } else if offset > 0 {
        is_char_boundary_iff_not_is_continuation_byte(bytes.skip(from), offset);
        is_char_boundary_iff_not_is_continuation_byte(bytes, from + offset);
    }
}

/// Where the cells of a text lie: within the text and within its width, each
/// one or two columns wide, none before the byte and the column at which the
/// walk starts.
pub proof fn lemma_cells_within(bytes: Seq<u8>, from: nat, column: nat)
    ensures
        forall|k: int|
            0 <= k < cells_at(bytes, from, column).len() ==> {
                let cell = #[trigger] cells_at(bytes, from, column)[k];
                &&& from <= cell.index
                &&& 0 < cell.len
                &&& cell.end() <= bytes.len()
                &&& column <= cell.column
                &&& 1 <= cell.width <= 2
                &&& cell.right() <= column + width_at(bytes, from)
            },
    decreases bytes.len() - from,
{
    let rest = bytes.skip(from as int);
    let len = first_len(rest);
    let width = first_width(rest);
    if from >= bytes.len() || len == 0 || from + len > bytes.len() {
    } else {
        lemma_cells_within(bytes, from + len, column + width);
        let all = cells_at(bytes, from, column);
        let more = cells_at(bytes, from + len, column + width);
        assert forall|k: int| 0 <= k < all.len() implies {
            let cell = #[trigger] all[k];
            &&& from <= cell.index
            &&& 0 < cell.len
            &&& cell.end() <= bytes.len()
            &&& column <= cell.column
            &&& 1 <= cell.width <= 2
            &&& cell.right() <= column + width_at(bytes, from)
        } by {
            if width > 0 && k > 0 {
                assert(all[k] == more[k - 1]);
            } else if width == 0 {
                assert(all[k] == more[k]);
            }
        }
    }
}

/// The width of a text is the sum of the widths of its cells.
pub proof fn lemma_width_is_cells_width(bytes: Seq<u8>, from: nat, column: nat)
    ensures
        cells_width(cells_at(bytes, from, column)) == width_at(bytes, from),
    decreases bytes.len() - from,
{
    let rest = bytes.skip(from as int);
    let len = first_len(rest);
    let width = first_width(rest);
    if from >= bytes.len() || len == 0 || from + len > bytes.len() {
    } else {
        lemma_width_is_cells_width(bytes, from + len, column + width);
        if width > 0 {
            assert(cells_at(bytes, from, column).drop_first() =~= cells_at(
                bytes,
                from + len,
                column + width,
            ));
        }
    }
}

/// The cells of a text lie side by side: the first at the column at which
/// the walk starts, each next one where the one before it ends, the last one
/// ending at the width of the text. A text without cells has no width.
pub proof fn lemma_cells_side_by_side(bytes: Seq<u8>, from: nat, column: nat)
    ensures
        cells_at(bytes, from, column).len() == 0 ==> width_at(bytes, from) == 0,
        cells_at(bytes, from, column).len() > 0 ==> {
            &&& cells_at(bytes, from, column)[0].column == column
            &&& cells_at(bytes, from, column).last().right() == column + width_at(bytes, from)
        },
        forall|k: int|
            0 <= k < cells_at(bytes, from, column).len() - 1 ==> (#[trigger] cells_at(
                bytes,
                from,
                column,
            )[k]).right() == cells_at(bytes, from, column)[k + 1].column,
    decreases bytes.len() - from,
{
    let rest = bytes.skip(from as int);
    let len = first_len(rest);
    let width = first_width(rest);
    if from >= bytes.len() || len == 0 || from + len > bytes.len() {
    } else {
        lemma_cells_side_by_side(bytes, from + len, column + width);
        let all = cells_at(bytes, from, column);
        let more = cells_at(bytes, from + len, column + width);
        if width > 0 {
            assert(all.len() == more.len() + 1);
            assert forall|k: int| 0 <= k < all.len() - 1 implies (#[trigger] all[k]).right()
                == all[k + 1].column by {
                assert(all[k + 1] == more[k]);
                if k > 0 {
                    assert(all[k] == more[k - 1]);
                }
            }
            if more.len() > 0 {
                assert(all.last() == more.last());
            }
        }
    }
}

/// The bytes of a text are valid UTF-8, and its two ends are character
/// boundaries.
pub proof fn lemma_text_ends(text: Seq<char>)
    ensures
        valid_utf8(encode_utf8(text)),
        decode_utf8(encode_utf8(text)) == text,
        is_char_boundary(encode_utf8(text), 0),
        is_char_boundary(encode_utf8(text), encode_utf8(text).len() as int),
{
    encode_utf8_valid_utf8(text);
    encode_utf8_decode_utf8(text);
    is_char_boundary_start_end_of_seq(encode_utf8(text));
}

/// The bytes of two texts put together are the bytes of the one followed by
/// the bytes of the other.
pub proof fn lemma_encode_add(a: Seq<char>, b: Seq<char>)
    ensures
        encode_utf8(a + b) == encode_utf8(a) + encode_utf8(b),
    decreases a.len(),
{
    if a.len() == 0 {
        assert(a + b =~= b);
        assert(encode_utf8(a) + encode_utf8(b) =~= encode_utf8(b));
    } else {
        assert((a + b).drop_first() =~= a.drop_first() + b);
        lemma_encode_add(a.drop_first(), b);
        assert(encode_utf8(a + b) =~= encode_utf8(a) + encode_utf8(b));
    }
}

/// Finds the first cluster of non-zero width at or after byte `from` of
/// `text`, passing over the clusters of width 0 before it.
pub fn next_cluster<'a>(text: &'a str, from: usize) -> (found: Option<Cluster<'a>>)
    requires
        from <= text.spec_bytes().len(),
        is_char_boundary(text.spec_bytes(), from as int),
    ensures
        found is None ==> width_at(text.spec_bytes(), from as nat) == 0,
        found is None ==> forall|column: nat|
            #[trigger] cells_at(text.spec_bytes(), from as nat, column) == Seq::<CellView>::empty(),
        found matches Some(cluster) ==> {
            &&& from <= cluster.index
            &&& cluster.len > 0
            &&& cluster.end() <= text.spec_bytes().len() <= usize::MAX
            &&& cluster.len == cluster.str.spec_bytes().len()
            &&& cluster.str.spec_bytes() == text.spec_bytes().subrange(
                cluster.index as int,
                cluster.end() as int,
            )
            &&& 1 <= cluster.width <= 2
            &&& is_char_boundary(text.spec_bytes(), cluster.index as int)
            &&& is_char_boundary(text.spec_bytes(), cluster.end() as int)
            &&& width_at(text.spec_bytes(), from as nat) == cluster.width + width_at(
                text.spec_bytes(),
                cluster.end(),
            )
            &&& forall|column: nat|
                #[trigger] cells_at(text.spec_bytes(), from as nat, column) == seq![
                    cluster.at(column),
                ] + cells_at(text.spec_bytes(), cluster.end(), column + cluster.width as nat)
        },
{
    proof {
        encode_utf8_valid_utf8(text@);
    }
    let ghost bytes = text.spec_bytes();
    let total = text.as_bytes().len();
    let mut index: usize = from;
    let (_, tail) = text.split_at(from);
    let mut rest: &str = tail;
    proof {
        assert(rest.spec_bytes() =~= bytes.skip(from as int));
    }
    loop
        invariant
            bytes == text.spec_bytes(),
            total == bytes.len(),
            valid_utf8(bytes),
            from <= index <= total,
            is_char_boundary(bytes, index as int),
            rest.spec_bytes() == bytes.skip(index as int),
            width_at(bytes, from as nat) == width_at(bytes, index as nat),
            forall|column: nat|
                #[trigger] cells_at(bytes, from as nat, column) == cells_at(
                    bytes,
                    index as nat,
                    column,
                ),
        decreases total - index,
    {
        let len = match first_grapheme_len(rest) {
            Some(len) => len,
            None => {
                proof {
                    assert(rest.spec_bytes().len() == 0);
                }
                return None;
            },
        };
        let (head, tail) = rest.split_at(len);
        let width = clamp(str_width(head));
        proof {
            assert(head.spec_bytes() =~= bytes.skip(index as int).subrange(0, len as int));
            assert(tail.spec_bytes() =~= bytes.skip(index + len));
            encode_utf8_decode_utf8(rest@);
            encode_utf8_decode_utf8(head@);
            assert(rest.spec_bytes() == encode_utf8(rest@));
            assert(decode_utf8(rest.spec_bytes()) == rest@);
            assert(decode_utf8(head.spec_bytes()) == head@);
            assert(len == first_len(bytes.skip(index as int)));
            assert(width == first_width(bytes.skip(index as int)));
            lemma_boundary_in_tail(bytes, index as int, len as int);
        }
        if width > 0 {
            return Some(Cluster { index, len, width, str: head });
        }
        index = index + len;
        rest = tail;
    }
}

} // verus!
