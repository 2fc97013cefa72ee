//! Segments: byte-length and column-width records laid side by side, and the
//! search for the segments that a range of columns touches.

use crate::style::Style;
use std::ops::Range;
use vstd::prelude::*;

verus! {

/// A stretch of text: its length in bytes, its width in columns, its style.
#[derive(Copy, Clone, Eq, PartialEq, Debug)]
pub struct Segment {
    /// Length.
    pub len: usize,
    /// Width.
    pub width: u16,
    /// Style.
    pub style: Style,
}

impl Default for Segment {
    fn default() -> (segment: Self)
        ensures
            segment == (Segment { len: 0, width: 0, style: Style::plain() }),
    {
        Segment { len: 0, width: 0, style: Style::default() }
    }
}

/// A segment together with where it stands in its list.
#[derive(Copy, Clone, Eq, PartialEq, Debug)]
pub struct Scan {
    /// Bytes offset of the [`Segment`].
    pub i: usize,
    /// Width offset of the [`Segment`].
    pub x: u16,
    /// Index of the [`Segment`].
    pub index: usize,
    /// The [`Segment`].
    pub segment: Segment,
}

/// The bytes that the first `count` segments hold.
pub open spec fn bytes_before(segments: Seq<Segment>, count: int) -> nat
    decreases count,
{
    if count <= 0 || count > segments.len() {
        0
    } else {
        bytes_before(segments, count - 1) + segments[count - 1].len as nat
    }
}

/// The columns that the first `count` segments cover.
pub open spec fn columns_before(segments: Seq<Segment>, count: int) -> nat
    decreases count,
{
    if count <= 0 || count > segments.len() {
        0
    } else {
        columns_before(segments, count - 1) + segments[count - 1].width as nat
    }
}

/// The index of the first segment at or after `from` that ends at or after
/// column `limit`; `segments.len()` when there is none.
pub open spec fn seek_segment(segments: Seq<Segment>, from: int, limit: nat) -> int
    decreases segments.len() - from,
{
    if from < 0 || from >= segments.len() {
        segments.len() as int
    } else if columns_before(segments, from + 1) >= limit {
        from
    } else {
        seek_segment(segments, from + 1, limit)
    }
}

/// Segment `index` with its offsets.
pub open spec fn scan_at(segments: Seq<Segment>, index: int) -> Scan {
    Scan {
        i: bytes_before(segments, index) as usize,
        x: columns_before(segments, index) as u16,
        index: index as usize,
        segment: segments[index],
    }
}

/// Offsets grow with the index.
pub proof fn lemma_before_monotonic(segments: Seq<Segment>, i: int, j: int)
    requires
        0 <= i <= j <= segments.len(),
    ensures
        columns_before(segments, i) <= columns_before(segments, j),
        bytes_before(segments, i) <= bytes_before(segments, j),
    decreases j - i,
{
    if i < j {
        lemma_before_monotonic(segments, i, j - 1);
    }
}

/// What `seek_segment` finds: the segments it passes over end before `limit`;
/// it stops at one that does not, and finds one whenever `limit` lies after
/// the start of segment `from` and within the total width.
pub proof fn lemma_seek_segment(segments: Seq<Segment>, from: int, limit: nat)
    requires
        0 <= from <= segments.len(),
    ensures
        from <= seek_segment(segments, from, limit) <= segments.len(),
        seek_segment(segments, from, limit) < segments.len() ==> columns_before(
            segments,
            seek_segment(segments, from, limit) + 1,
        ) >= limit,
        seek_segment(segments, from, limit) > from ==> columns_before(
            segments,
            seek_segment(segments, from, limit),
        ) < limit,
        limit <= columns_before(segments, segments.len() as int) && (columns_before(segments, from)
            < limit || from < segments.len()) ==> seek_segment(segments, from, limit)
            < segments.len(),
    decreases segments.len() - from,
{
    if from < segments.len() && columns_before(segments, from + 1) < limit {
        lemma_seek_segment(segments, from + 1, limit);
    }
}

impl Segment {
    /// Finds the segments that the columns from `x` up to `x + width` touch:
    /// the first segment that ends after `x`, and from there the first that
    /// ends at or after `x + width`. Fails when the columns do not all lie
    /// within the segments.
    pub fn scan(segments: &Vec<Self>, x: u16, width: u16) -> (found: Result<Range<Scan>, ()>)
        requires
            columns_before(segments@, segments@.len() as int) <= u16::MAX,
            bytes_before(segments@, segments@.len() as int) <= usize::MAX,
        ensures
            found is Ok <==> x < columns_before(segments@, segments@.len() as int) && x + width
                <= columns_before(segments@, segments@.len() as int),
            found matches Ok(range) ==> {
                let first = seek_segment(segments@, 0, x as nat + 1);
                let last = seek_segment(segments@, first, x as nat + width as nat);
                &&& first <= last < segments@.len()
                &&& range.start == scan_at(segments@, first)
                &&& range.end == scan_at(segments@, last)
            },
    {
        if segments.len() == 0 {
            return Err(());
        }
        proof {
            lemma_seek_segment(segments@, 0, x as nat + 1);
        }
        let start = match Self::seek(segments, 0, 0, 0, x as u32 + 1) {
            Some(start) => start,
            None => {
                return Err(());
            },
        };
        let ghost first = seek_segment(segments@, 0, x as nat + 1);
        proof {
            lemma_before_monotonic(segments@, first, segments@.len() as int);
            lemma_before_monotonic(segments@, first + 1, segments@.len() as int);
            lemma_seek_segment(segments@, first, x as nat + width as nat);
        }
        let end = match Self::seek(segments, start.index, start.i, start.x, x as u32 + width as u32) {
            Some(end) => end,
            None => {
                return Err(());
            },
        };
        let ghost last = seek_segment(segments@, first, x as nat + width as nat);
        proof {
            lemma_before_monotonic(segments@, last, segments@.len() as int);
            lemma_before_monotonic(segments@, last + 1, segments@.len() as int);
        }
        Ok(start..end)
    }

    /// The first segment at or after `from` that ends at or after `limit`,
    /// with its offsets. `i` and `x` are the offsets of segment `from`.
    fn seek(segments: &Vec<Self>, from: usize, i: usize, x: u16, limit: u32) -> (found: Option<
        Scan,
    >)
        requires
            columns_before(segments@, segments@.len() as int) <= u16::MAX,
            bytes_before(segments@, segments@.len() as int) <= usize::MAX,
            from <= segments@.len(),
            i == bytes_before(segments@, from as int),
            x == columns_before(segments@, from as int),
        ensures
            found is Some <==> seek_segment(segments@, from as int, limit as nat) < segments@.len(),
            found matches Some(scan) ==> scan == scan_at(
                segments@,
                seek_segment(segments@, from as int, limit as nat),
            ),
    {
        let mut index: usize = from;
        let mut i: usize = i;
        let mut x: u16 = x;
        while index < segments.len()
            invariant
                from <= index <= segments@.len(),
                columns_before(segments@, segments@.len() as int) <= u16::MAX,
                bytes_before(segments@, segments@.len() as int) <= usize::MAX,
                i == bytes_before(segments@, index as int),
                x == columns_before(segments@, index as int),
                seek_segment(segments@, from as int, limit as nat) == seek_segment(
                    segments@,
                    index as int,
                    limit as nat,
                ),
            decreases segments@.len() - index,
        {
            proof {
                lemma_before_monotonic(segments@, index + 1, segments@.len() as int);
            }
            let segment = segments[index];
            if x as u32 + segment.width as u32 >= limit {
                return Some(Scan { i, x, index, segment });
            }
            i = i + segment.len;
            x = x + segment.width;
            index = index + 1;
        }
        None
    }
}

} // verus!
