//! Style runs: an ordered list of `(width, style)` runs laid side by side
//! along the columns of a line.

use crate::style::Style;
use vstd::prelude::*;

verus! {

/// A run of `width` columns sharing one style.
#[derive(Copy, Clone, Eq, PartialEq, Debug)]
pub struct Span {
    pub width: u16,
    pub style: Style,
}

impl Default for Span {
    fn default() -> (span: Self)
        ensures
            span == (Span { width: 0, style: Style::plain() }),
    {
        Span { width: 0, style: Style::default() }
    }
}

/// The sum of the widths of `runs`.
pub open spec fn total_width(runs: Seq<Span>) -> nat
    decreases runs.len(),
{
    if runs.len() == 0 {
        0
    } else {
        total_width(runs.drop_last()) + runs.last().width as nat
    }
}

/// The column at which run `i` starts: the width of the runs before it.
pub open spec fn start_of(runs: Seq<Span>, i: int) -> nat {
    total_width(runs.take(i))
}

/// The column just after run `i`.
pub open spec fn end_of(runs: Seq<Span>, i: int) -> nat {
    start_of(runs, i) + runs[i].width as nat
}

/// The index of the first run at or after `from` that ends at or after
/// column `limit`; `runs.len()` when there is none.
pub open spec fn seek(runs: Seq<Span>, from: int, limit: nat) -> int
    decreases runs.len() - from,
{
    if from < 0 || from >= runs.len() {
        runs.len() as int
    } else if end_of(runs, from) >= limit {
        from
    } else {
        seek(runs, from + 1, limit)
    }
}

/// The style shown at `column`: that of the run covering it. Columns at or
/// after the total width take the plain style.
pub open spec fn style_at(runs: Seq<Span>, column: nat) -> Style {
    let i = seek(runs, 0, column + 1);
    if i < runs.len() {
        runs[i].style
    } else {
        Style::plain()
    }
}

/// What painting `span` at `column` replaces in `runs`.
pub struct Patch {
    /// Index of the first run touched.
    pub first: int,
    /// Index of the last run touched.
    pub last: int,
    /// Columns of run `first` left of `column`; they keep its style.
    pub lead: nat,
    /// Width of the painted run, clipped to the columns that exist.
    pub width: nat,
    /// Columns of run `last` right of the painted run; they keep its style.
    pub trail: nat,
}

/// The patch for painting a run of `width` columns at `column`, which must
/// lie before the total width of `runs`.
pub open spec fn patch(runs: Seq<Span>, column: nat, width: nat) -> Patch {
    let total = total_width(runs);
    let first = seek(runs, 0, column + 1);
    let last = if column + width <= total {
        seek(runs, first, column + width)
    } else {
        runs.len() - 1
    };
    let clipped = if column + width <= total {
        width
    } else {
        (total - column) as nat
    };
    Patch {
        first,
        last,
        lead: (column - start_of(runs, first)) as nat,
        width: clipped,
        trail: (end_of(runs, last) - (column + clipped)) as nat,
    }
}

/// The runs that stand in for runs `first..=last` of the patch: what is left
/// of run `first`, the painted run, what is left of run `last`. A side with
/// nothing left gets no run.
pub open spec fn patch_runs(runs: Seq<Span>, p: Patch, style: Style) -> Seq<Span> {
    let lead = if p.lead > 0 {
        seq![Span { width: p.lead as u16, style: runs[p.first].style }]
    } else {
        Seq::<Span>::empty()
    };
    let trail = if p.trail > 0 {
        seq![Span { width: p.trail as u16, style: runs[p.last].style }]
    } else {
        Seq::<Span>::empty()
    };
    lead + seq![Span { width: p.width as u16, style }] + trail
}

/// The runs after painting `span` at `column`. Painting at or after the total
/// width changes nothing. Neighbouring runs of equal style are not merged.
pub open spec fn painted(runs: Seq<Span>, column: nat, span: Span) -> Seq<Span> {
    if column >= total_width(runs) {
        runs
    } else {
        let p = patch(runs, column, span.width as nat);
        runs.take(p.first) + patch_runs(runs, p, span.style) + runs.skip(p.last + 1)
    }
}

/// The width of a concatenation is the sum of the widths.
pub proof fn lemma_total_width_add(a: Seq<Span>, b: Seq<Span>)
    ensures
        total_width(a + b) == total_width(a) + total_width(b),
    decreases b.len(),
{
    if b.len() == 0 {
        assert(a + b =~= a);
    } else {
        assert((a + b).drop_last() =~= a + b.drop_last());
        lemma_total_width_add(a, b.drop_last());
    }
}

/// Run `i` ends where run `i + 1` starts, and the last run ends at the total
/// width.
pub proof fn lemma_start_step(runs: Seq<Span>, i: int)
    requires
        0 <= i < runs.len(),
    ensures
        end_of(runs, i) == start_of(runs, i + 1),
        start_of(runs, i + 1) <= total_width(runs),
        start_of(runs, runs.len() as int) == total_width(runs),
        start_of(runs, 0) == 0,
{
    assert(runs.take(i + 1).drop_last() =~= runs.take(i));
    assert(runs.take(runs.len() as int) =~= runs);
    assert(runs =~= runs.take(i + 1) + runs.skip(i + 1));
    lemma_total_width_add(runs.take(i + 1), runs.skip(i + 1));
}

/// Starting columns grow with the index.
pub proof fn lemma_start_monotonic(runs: Seq<Span>, i: int, j: int)
    requires
        0 <= i <= j <= runs.len(),
    ensures
        start_of(runs, i) <= start_of(runs, j),
    decreases j - i,
{
    if i < j {
        lemma_start_step(runs, j - 1);
        lemma_start_monotonic(runs, i, j - 1);
    }
}

/// What `seek` finds: the runs it passes over end before `limit`, and the run
/// it stops at does not.
pub proof fn lemma_seek(runs: Seq<Span>, from: int, limit: nat)
    requires
        0 <= from <= runs.len(),
    ensures
        from <= seek(runs, from, limit) <= runs.len(),
        seek(runs, from, limit) < runs.len() ==> end_of(runs, seek(runs, from, limit)) >= limit,
        forall|i: int| from <= i < seek(runs, from, limit) ==> end_of(runs, i) < limit,
    decreases runs.len() - from,
{
    if from < runs.len() && end_of(runs, from) < limit {
        lemma_seek(runs, from + 1, limit);
    }
}

/// A search may start at any run, so long as every run before it ends before
/// `limit`.
pub proof fn lemma_seek_from(runs: Seq<Span>, from: int, limit: nat)
    requires
        0 <= from <= runs.len(),
        forall|i: int| 0 <= i < from ==> end_of(runs, i) < limit,
    ensures
        seek(runs, 0, limit) == seek(runs, from, limit),
    decreases from,
{
    if from > 0 {
        lemma_seek_from(runs, from - 1, limit);
    }
}

/// A column before the total width is covered by a run: `seek` finds one.
pub proof fn lemma_seek_finds(runs: Seq<Span>, from: int, limit: nat)
    requires
        0 <= from <= runs.len(),
        start_of(runs, from) < limit <= total_width(runs),
    ensures
        seek(runs, from, limit) < runs.len(),
        start_of(runs, seek(runs, from, limit)) < limit,
    decreases runs.len() - from,
{
    if from == runs.len() {
        assert(runs.take(from) =~= runs);
    } else {
        lemma_start_step(runs, from);
        if end_of(runs, from) < limit {
            lemma_seek_finds(runs, from + 1, limit);
        }
    }
}

/// Painting never changes the total width.
pub proof fn lemma_painted_width(runs: Seq<Span>, column: nat, span: Span)
    requires
        total_width(runs) <= u16::MAX,
    ensures
        total_width(painted(runs, column, span)) == total_width(runs),
{
    if column < total_width(runs) {
        let width = span.width as nat;
        let p = patch(runs, column, width);
        assert(runs.take(0) =~= Seq::<Span>::empty());
        lemma_seek(runs, 0, column + 1);
        lemma_seek_finds(runs, 0, column + 1);
        lemma_start_step(runs, p.first);
        if column + width <= total_width(runs) {
            lemma_seek(runs, p.first, column + width);
            if width > 0 {
                lemma_seek_finds(runs, p.first, column + width);
            }
        }
        lemma_start_step(runs, p.last);
        lemma_start_monotonic(runs, p.first, p.last);
        let mid = patch_runs(runs, p, span.style);
        let lead = if p.lead > 0 {
            seq![Span { width: p.lead as u16, style: runs[p.first].style }]
        } else {
            Seq::<Span>::empty()
        };
        let trail = if p.trail > 0 {
            seq![Span { width: p.trail as u16, style: runs[p.last].style }]
        } else {
            Seq::<Span>::empty()
        };
        let new = seq![Span { width: p.width as u16, style: span.style }];
        lemma_total_width_one(new);
        if p.lead > 0 {
            lemma_total_width_one(lead);
        }
        if p.trail > 0 {
            lemma_total_width_one(trail);
        }
        lemma_total_width_add(lead, new);
        lemma_total_width_add(lead + new, trail);
        assert(total_width(mid) == p.lead + p.width + p.trail);
        lemma_total_width_add(runs.take(p.first), mid);
        lemma_total_width_add(runs.take(p.first) + mid, runs.skip(p.last + 1));
        assert(runs =~= runs.take(p.last + 1) + runs.skip(p.last + 1));
        lemma_total_width_add(runs.take(p.last + 1), runs.skip(p.last + 1));
    }
}

/// `seek` stops at the first run, from `from` on, that ends at or after
/// `limit`.
pub proof fn lemma_seek_is(runs: Seq<Span>, from: int, limit: nat, found: int)
    requires
        0 <= from <= found <= runs.len(),
        forall|i: int| from <= i < found ==> end_of(runs, i) < limit,
        found < runs.len() ==> end_of(runs, found) >= limit,
    ensures
        seek(runs, from, limit) == found,
    decreases found - from,
{
    if from < found {
        lemma_seek_is(runs, from + 1, limit, found);
    }
}

/// Where the runs of a concatenation end: those of the first part where they
/// did, those of the second part further right by the width of the first.
pub proof fn lemma_end_of_add(a: Seq<Span>, b: Seq<Span>, i: int)
    requires
        0 <= i < a.len() + b.len(),
    ensures
        i < a.len() ==> end_of(a + b, i) == end_of(a, i),
        i >= a.len() ==> end_of(a + b, i) == total_width(a) + end_of(b, i - a.len()),
{
    if i < a.len() {
        assert((a + b).take(i) =~= a.take(i));
    } else {
        assert((a + b).take(i) =~= a + b.take(i - a.len()));
        lemma_total_width_add(a, b.take(i - a.len()));
    }
}

/// The style at a column of a concatenation: that of the first part within
/// its width, that of the second part after it.
pub proof fn lemma_style_at_add(a: Seq<Span>, b: Seq<Span>, column: nat)
    ensures
        column < total_width(a) ==> style_at(a + b, column) == style_at(a, column),
        column >= total_width(a) ==> style_at(a + b, column) == style_at(
            b,
            (column - total_width(a)) as nat,
        ),
{
    let all = a + b;
    assert(a.take(0) =~= Seq::<Span>::empty());
    assert(b.take(0) =~= Seq::<Span>::empty());
    assert forall|i: int| 0 <= i < all.len() implies (i < a.len() ==> end_of(all, i) == end_of(
        a,
        i,
    ) && end_of(a, i) <= total_width(a)) && (i >= a.len() ==> end_of(all, i) == total_width(a)
        + end_of(b, i - a.len())) by {
        lemma_end_of_add(a, b, i);
        if i < a.len() {
            lemma_start_step(a, i);
        }
    }
    if column < total_width(a) {
        let found = seek(a, 0, column + 1);
        lemma_seek(a, 0, column + 1);
        lemma_seek_finds(a, 0, column + 1);
        lemma_seek_is(all, 0, column + 1, found);
    } else {
        let limit = (column + 1 - total_width(a)) as nat;
        let found = seek(b, 0, limit);
        lemma_seek(b, 0, limit);
        lemma_seek_is(all, 0, column + 1, a.len() + found);
    }
}

/// The style at a column of a single run.
proof fn lemma_style_at_one(run: Span, column: nat)
    ensures
        column < run.width ==> style_at(seq![run], column) == run.style,
        column >= run.width ==> style_at(seq![run], column) == Style::plain(),
{
    let runs = seq![run];
    lemma_total_width_one(runs);
    assert(runs.take(1) =~= runs);
    assert(runs.take(0) =~= Seq::<Span>::empty());
    assert(end_of(runs, 0) == run.width);
    reveal_with_fuel(seek, 2);
}

/// What painting means column by column: the columns that the clipped run
/// covers take its style, every other column keeps the style it had.
pub proof fn lemma_painted_style(runs: Seq<Span>, column: nat, span: Span, at: nat)
    requires
        total_width(runs) <= u16::MAX,
    ensures
        style_at(painted(runs, column, span), at) == if column <= at < column + span.width && at
            < total_width(runs) {
            span.style
        } else {
            style_at(runs, at)
        },
{
    if column < total_width(runs) {
        let width = span.width as nat;
        let p = patch(runs, column, width);
        assert(runs.take(0) =~= Seq::<Span>::empty());
        lemma_seek(runs, 0, column + 1);
        lemma_seek_finds(runs, 0, column + 1);
        lemma_start_step(runs, p.first);
        if column + width <= total_width(runs) {
            lemma_seek(runs, p.first, column + width);
            if width > 0 {
                lemma_seek_finds(runs, p.first, column + width);
            }
        }
        lemma_start_step(runs, p.last);
        lemma_start_monotonic(runs, p.first, p.last);

        let head = runs.take(p.first);
        let tail = runs.skip(p.last + 1);
        let lead = if p.lead > 0 {
            seq![Span { width: p.lead as u16, style: runs[p.first].style }]
        } else {
            Seq::<Span>::empty()
        };
        let trail = if p.trail > 0 {
            seq![Span { width: p.trail as u16, style: runs[p.last].style }]
        } else {
            Seq::<Span>::empty()
        };
        let new = Span { width: p.width as u16, style: span.style };
        let mid = patch_runs(runs, p, span.style);
        assert(mid == lead + seq![new] + trail);
        lemma_total_width_one(seq![new]);
        if p.lead > 0 {
            lemma_total_width_one(lead);
        }
        if p.trail > 0 {
            lemma_total_width_one(trail);
        }
        lemma_total_width_add(lead, seq![new]);
        lemma_total_width_add(lead + seq![new], trail);
        lemma_total_width_add(head, mid);
        assert(total_width(head) == start_of(runs, p.first));
        assert(total_width(head + mid) == end_of(runs, p.last));
        assert(runs =~= runs.take(p.last + 1) + tail);
        assert(runs =~= head + runs.skip(p.first));

        if at < total_width(head) {
            lemma_style_at_add(head + mid, tail, at);
            lemma_style_at_add(head, mid, at);
            lemma_style_at_add(head, runs.skip(p.first), at);
        } else if at >= end_of(runs, p.last) {
            lemma_style_at_add(head + mid, tail, at);
            lemma_style_at_add(runs.take(p.last + 1), tail, at);
        } else {
            let inner = (at - total_width(head)) as nat;
            lemma_style_at_add(head + mid, tail, at);
            lemma_style_at_add(head, mid, at);
            lemma_style_at_add(lead + seq![new], trail, inner);
            lemma_style_at_add(lead, seq![new], inner);
            lemma_style_at_one(new, (inner - p.lead) as nat);
            if p.lead > 0 {
                lemma_style_at_one(lead[0], inner);
            }
            if p.trail > 0 {
                lemma_style_at_one(trail[0], (inner - p.lead - p.width) as nat);
            }
            assert forall|i: int| 0 <= i < p.first implies #[trigger] end_of(runs, i) <= start_of(
                runs,
                p.first,
            ) by {
                lemma_start_step(runs, i);
                lemma_start_monotonic(runs, i + 1, p.first);
            }
            if at < column {
                lemma_seek_is(runs, 0, at + 1, p.first);
            } else if at >= column + p.width {
                lemma_seek_is(runs, 0, at + 1, p.last);
            }
        }
    }
}

/// The width of a single run.
proof fn lemma_total_width_one(runs: Seq<Span>)
    requires
        runs.len() == 1,
    ensures
        total_width(runs) == runs[0].width,
{
    reveal_with_fuel(total_width, 2);
}

/// An ordered list of style runs. Run `i` covers the columns from
/// `start_of(runs, i)` up to `end_of(runs, i)`.
#[derive(Eq, PartialEq, Debug)]
pub struct Spans(Vec<Span>);

impl Clone for Spans {
    fn clone(&self) -> (spans: Self)
        ensures
            spans@ == self@,
    {
        let spans = Spans(self.0.clone());
        assert(spans.0@ =~= self.0@);
        spans
    }
}

impl View for Spans {
    type V = Seq<Span>;

    closed spec fn view(&self) -> Seq<Span> {
        self.0@
    }
}

impl Default for Spans {
    fn default() -> (spans: Self)
        ensures
            spans@ == Seq::<Span>::empty(),
    {
        Spans(Vec::new())
    }
}

impl Spans {
    /// The list made of `spans`, in order.
    pub fn new(spans: Vec<Span>) -> (list: Self)
        ensures
            list@ == spans@,
    {
        Spans(spans)
    }

    /// The total width: the sum of the widths of the runs.
    pub fn width(&self) -> (width: u16)
        requires
            total_width(self@) <= u16::MAX,
        ensures
            width == total_width(self@),
    {
        proof {
            assert(self@.take(self@.len() as int) =~= self@);
        }
        self.start_column(self.0.len())
    }

    /// The runs, in order.
    pub fn iter(&self) -> (runs: std::slice::Iter<'_, Span>)
        ensures
            vstd::std_specs::slice::into_iter_elts(runs) == self@,
    {
        broadcast use vstd::std_specs::slice::axiom_spec_slice_iter;

        self.0.as_slice().iter()
    }

    /// Run `index`, to be changed in place; `None` past the last run.
    pub fn iter_mut(&mut self, index: usize) -> (run: Option<&mut Span>)
        ensures
            index >= old(self)@.len() ==> run is None && final(self)@ == old(self)@,
            index < old(self)@.len() ==> run is Some && *run->0 == old(self)@[index as int]
                && final(self)@ == old(self)@.update(index as int, *final(run->0)),
    {
        if index < self.0.len() {
            Some(&mut self.0[index])
        } else {
            None
        }
    }

    /// Every run with its index and the column at which it starts.
    pub fn scan(&self) -> (scan: Vec<(usize, u16, &Span)>)
        requires
            total_width(self@) <= u16::MAX,
        ensures
            scan@.len() == self@.len(),
            forall|i: int|
                0 <= i < self@.len() ==> {
                    &&& (#[trigger] scan@[i]).0 == i
                    &&& scan@[i].1 == start_of(self@, i)
                    &&& *scan@[i].2 == self@[i]
                },
    {
        let mut scan: Vec<(usize, u16, &Span)> = Vec::new();
        let mut column: u16 = 0;
        let mut index: usize = 0;
        proof {
            assert(self@.take(0) =~= Seq::<Span>::empty());
        }
        while index < self.0.len()
            invariant
                index <= self@.len(),
                total_width(self@) <= u16::MAX,
                column == start_of(self@, index as int),
                scan@.len() == index,
                forall|i: int|
                    0 <= i < index ==> {
                        &&& (#[trigger] scan@[i]).0 == i
                        &&& scan@[i].1 == start_of(self@, i)
                        &&& *scan@[i].2 == self@[i]
                    },
            decreases self@.len() - index,
        {
            proof {
                lemma_start_step(self@, index as int);
            }
            scan.push((index, column, &self.0[index]));
            column = column + self.0[index].width;
            index = index + 1;
        }
        scan
    }

    /// Run `index` with its index and the column at which it starts, the run
    /// to be changed in place; `None` past the last run.
    pub fn scan_mut(&mut self, index: usize) -> (item: Option<(usize, u16, &mut Span)>)
        requires
            total_width(old(self)@) <= u16::MAX,
        ensures
            index >= old(self)@.len() ==> item is None && final(self)@ == old(self)@,
            index < old(self)@.len() ==> item is Some && (item->0).0 == index && (item->0).1
                == start_of(old(self)@, index as int) && *(item->0).2 == old(self)@[index as int]
                && final(self)@ == old(self)@.update(index as int, *final((item->0).2)),
    {
        if index < self.0.len() {
            let column = self.start_column(index);
            Some((index, column, &mut self.0[index]))
        } else {
            None
        }
    }

    /// Appends `span` after the last run.
    pub fn push(&mut self, span: Span)
        ensures
            final(self)@ == old(self)@.push(span),
            total_width(final(self)@) == total_width(old(self)@) + span.width,
    {
        proof {
            assert(self@.push(span).drop_last() =~= self@);
        }
        self.0.push(span);
    }

    /// Overwrites the columns from `column` on with `span`, clipped to the
    /// total width, which never changes. Runs that the new run covers only in
    /// part are split: what is left of them keeps its style.
    pub fn paint(&mut self, column: u16, span: Span)
        requires
            total_width(old(self)@) <= u16::MAX,
        ensures
            final(self)@ == painted(old(self)@, column as nat, span),
            total_width(final(self)@) == total_width(old(self)@),
            column >= total_width(old(self)@) ==> final(self)@ == old(self)@,
    {
        let ghost runs = self@;
        let count = self.0.len();
        proof {
            assert(runs.take(0) =~= Seq::<Span>::empty());
            lemma_seek(runs, 0, column as nat + 1);
            lemma_painted_width(runs, column as nat, span);
        }
        let (first, first_start) = self.seek_run(0, 0, column as u32 + 1);
        if first >= count {
            proof {
                if column < total_width(runs) {
                    lemma_seek_finds(runs, 0, column as nat + 1);
                }
            }
            return ;
        }
        proof {
            lemma_start_step(runs, first as int);
            lemma_seek_finds(runs, 0, column as nat + 1);
            lemma_seek(runs, first as int, column as nat + span.width as nat);
        }
        let (found, found_start) = self.seek_run(first, first_start, column as u32 + span.width as u32);
        let last: usize = if found < count {
            found
        } else {
            count - 1
        };
        let last_start: u16 = if found < count {
            found_start
        } else {
            self.start_column(last)
        };
        proof {
            lemma_start_step(runs, last as int);
            if column + span.width <= total_width(runs) && span.width > 0 {
                lemma_seek_finds(runs, first as int, column as nat + span.width as nat);
            }
            lemma_start_monotonic(runs, first as int, last as int);
        }
        let last_end: u16 = last_start + self.0[last].width;
        let width: u16 = if found < count {
            span.width
        } else {
            last_end - column
        };
        let lead: u16 = column - first_start;
        let trail: u16 = last_end - column - width;
        let ghost p = patch(runs, column as nat, span.width as nat);
        assert(p.first == first && p.last == last && p.lead == lead && p.width == width && p.trail
            == trail);

        let mut out: Vec<Span> = Vec::new();
        let mut index: usize = 0;
        while index < first
            invariant
                index <= first < count,
                count == runs.len(),
                runs == self.0@,
                out@ == runs.take(index as int),
            decreases first - index,
        {
            out.push(self.0[index]);
            index = index + 1;
            proof {
                assert(runs.take(index as int) =~= runs.take(index - 1).push(runs[index - 1]));
            }
        }
        if lead > 0 {
            out.push(Span { width: lead, style: self.0[first].style });
        }
        out.push(Span { width, style: span.style });
        if trail > 0 {
            out.push(Span { width: trail, style: self.0[last].style });
        }
        assert(out@ =~= runs.take(first as int) + patch_runs(runs, p, span.style));
        index = last + 1;
        while index < count
            invariant
                last < index <= count,
                count == runs.len(),
                runs == self.0@,
                out@ == runs.take(first as int) + patch_runs(runs, p, span.style) + runs.subrange(
                    last + 1,
                    index as int,
                ),
            decreases count - index,
        {
            out.push(self.0[index]);
            index = index + 1;
        }
        assert(runs.subrange(last + 1, count as int) =~= runs.skip(last + 1));
        self.0 = out;
    }

    /// Run `index`.
    pub(crate) fn run(&self, index: usize) -> (run: Span)
        requires
            index < self@.len(),
        ensures
            run == self@[index as int],
    {
        self.0[index]
    }

    /// The column at which run `index` starts.
    fn start_column(&self, index: usize) -> (column: u16)
        requires
            total_width(self@) <= u16::MAX,
            index <= self@.len(),
        ensures
            column == start_of(self@, index as int),
    {
        let mut at: usize = 0;
        let mut column: u16 = 0;
        proof {
            assert(self@.take(0) =~= Seq::<Span>::empty());
        }
        while at < index
            invariant
                at <= index <= self@.len(),
                total_width(self@) <= u16::MAX,
                column == start_of(self@, at as int),
            decreases index - at,
        {
            proof {
                lemma_start_step(self@, at as int);
            }
            column = column + self.0[at].width;
            at = at + 1;
        }
        column
    }

    /// Finds the first run at or after `from` that ends at or after `limit`.
    /// `start` is the column at which run `from` starts. Returns the index
    /// found and the column at which that run starts.
    pub(crate) fn seek_run(&self, from: usize, start: u16, limit: u32) -> (found: (usize, u16))
        requires
            total_width(self@) <= u16::MAX,
            from <= self@.len(),
            start == start_of(self@, from as int),
        ensures
            found.0 == seek(self@, from as int, limit as nat),
            found.1 == start_of(self@, found.0 as int),
    {
        let mut index: usize = from;
        let mut column: u16 = start;
        while index < self.0.len()
            invariant
                from <= index <= self@.len(),
                total_width(self@) <= u16::MAX,
                column == start_of(self@, index as int),
                seek(self@, from as int, limit as nat) == seek(self@, index as int, limit as nat),
            decreases self@.len() - index,
        {
            proof {
                lemma_start_step(self@, index as int);
            }
            let end: u16 = column + self.0[index].width;
            if end as u32 >= limit {
                return (index, column);
            }
            column = end;
            index = index + 1;
        }
        (index, column)
    }
}

} // verus!
