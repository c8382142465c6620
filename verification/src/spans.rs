//! The ranges of a buffer to style, per combination of markup, and the markers to conceal.
use std::ops::Range;

use vstd::prelude::*;

use crate::style::MarkdownCommentStyle;

verus! {

/// One thing the parser asks for: style a range with a combination of markup, or conceal a
/// range. Offsets are byte offsets into the buffer; a range runs from `start` up to `end`.
pub enum Mark {
    Style { style: u8, start: int, end: int },
    Conceal { start: int, end: int },
}

/// What the spans hold, as plain values: the groups of ranges per style, in the order the
/// styles first came, and the concealed ranges in the order they came.
pub struct SpansView {
    pub styled: Seq<(u8, Seq<(int, int)>)>,
    pub concealed: Seq<(int, int)>,
}

/// The ranges to draw for the comments of one buffer.
#[derive(Debug, Clone, PartialEq, Eq)]
pub struct MarkdownSpans {
    /// The ranges to style, per combination of markup.
    styled: Vec<(MarkdownCommentStyle, Vec<Range<usize>>)>,
    /// The markers to conceal.
    concealed: Vec<Range<usize>>,
}

/// A range as a pair of offsets.
pub open spec fn range_pair(r: Range<usize>) -> (int, int) {
    (r.start as int, r.end as int)
}

/// A list of ranges as pairs of offsets.
pub open spec fn range_pairs(rs: Seq<Range<usize>>) -> Seq<(int, int)> {
    rs.map_values(|r: Range<usize>| range_pair(r))
}

/// A group of ranges as a style's bits and pairs of offsets.
pub open spec fn group_view(g: (MarkdownCommentStyle, Vec<Range<usize>>)) -> (u8, Seq<(int, int)>) {
    (g.0.0, range_pairs(g.1@))
}

impl View for MarkdownSpans {
    type V = SpansView;

    closed spec fn view(&self) -> SpansView {
        SpansView {
            styled: self.styled@.map_values(|g: (MarkdownCommentStyle, Vec<Range<usize>>)| group_view(g)),
            concealed: range_pairs(self.concealed@),
        }
    }
}

/// The index of the first group of `style`, if there is one.
pub open spec fn group_of(groups: Seq<(u8, Seq<(int, int)>)>, style: u8) -> Option<int>
    decreases groups.len(),
{
    if groups.len() == 0 {
        None
    } else {
        match group_of(groups.drop_last(), style) {
            Some(i) => Some(i),
            None => if groups.last().0 == style {
                Some(groups.len() - 1)
            } else {
                None
            },
        }
    }
}

/// The spans after one mark. An empty range, or a style that carries no markup, changes
/// nothing; a styled range joins the group of its style, which is made at the end when the
/// style has none yet.
pub open spec fn apply_mark(v: SpansView, m: Mark) -> SpansView {
    match m {
        Mark::Style { style, start, end } => if start < end && style != 0 {
            match group_of(v.styled, style) {
                Some(i) => SpansView {
                    styled: v.styled.update(i, (style, v.styled[i].1.push((start, end)))),
                    concealed: v.concealed,
                },
                None => SpansView {
                    styled: v.styled.push((style, seq![(start, end)])),
                    concealed: v.concealed,
                },
            }
        } else {
            v
        },
        Mark::Conceal { start, end } => if start < end {
            SpansView { styled: v.styled, concealed: v.concealed.push((start, end)) }
        } else {
            v
        },
    }
}

/// The spans after the marks, one after the other.
pub open spec fn apply_marks(v: SpansView, ms: Seq<Mark>) -> SpansView
    decreases ms.len(),
{
    if ms.len() == 0 {
        v
    } else {
        apply_mark(apply_marks(v, ms.drop_last()), ms.last())
    }
}

/// Well-formed spans: each group has a style that carries markup, no style has two groups, and
/// every range, styled or concealed, is not empty.
pub open spec fn spans_wf(v: SpansView) -> bool {
    &&& forall|i: int| 0 <= i < v.styled.len() ==> #[trigger] v.styled[i].0 != 0
    &&& forall|i: int, j: int|
        0 <= i < v.styled.len() && 0 <= j < v.styled.len() && i != j ==> #[trigger] v.styled[i].0
            != #[trigger] v.styled[j].0
    &&& forall|i: int, k: int|
        0 <= i < v.styled.len() && 0 <= k < v.styled[i].1.len() ==> #[trigger] v.styled[i].1[k].0
            < v.styled[i].1[k].1
    &&& forall|k: int| 0 <= k < v.concealed.len() ==> #[trigger] v.concealed[k].0 < v.concealed[k].1
}

/// The group found for a style holds that style, and no group before it does.
pub proof fn lemma_group_of(groups: Seq<(u8, Seq<(int, int)>)>, style: u8)
    ensures
        group_of(groups, style) matches Some(i) ==> 0 <= i < groups.len() && groups[i].0 == style
            && forall|j: int| 0 <= j < i ==> groups[j].0 != style,
        group_of(groups, style) is None ==> forall|j: int|
            0 <= j < groups.len() ==> groups[j].0 != style,
    decreases groups.len(),
{
    if groups.len() > 0 {
        let rest = groups.drop_last();
        lemma_group_of(rest, style);
        assert(forall|j: int| 0 <= j < rest.len() ==> rest[j] == groups[j]);
    }
}

/// Applying two lists of marks is applying their concatenation.
pub proof fn lemma_apply_marks_concat(v: SpansView, a: Seq<Mark>, b: Seq<Mark>)
    ensures
        apply_marks(v, a + b) == apply_marks(apply_marks(v, a), b),
    decreases b.len(),
{
    if b.len() == 0 {
        assert(a + b =~= a);
    } else {
        assert((a + b).drop_last() =~= a + b.drop_last());
        lemma_apply_marks_concat(v, a, b.drop_last());
    }
}

/// Spans stay well formed under every mark: a style never gets a second group, and no empty
/// range is kept.
pub proof fn lemma_apply_mark_wf(v: SpansView, m: Mark)
    requires
        spans_wf(v),
    ensures
        spans_wf(apply_mark(v, m)),
{
    lemma_group_of(v.styled, match m {
        Mark::Style { style, .. } => style,
        Mark::Conceal { .. } => 0,
    });
    let w = apply_mark(v, m);
    match m {
        Mark::Style { style, start, end } => {
            if start < end && style != 0 {
                match group_of(v.styled, style) {
                    Some(g) => {
                        assert forall|i: int, k: int|
                            0 <= i < w.styled.len() && 0 <= k < w.styled[i].1.len() implies #[trigger] w.styled[i].1[k].0
                            < w.styled[i].1[k].1 by {
                            if i == g && k == v.styled[g].1.len() {
                            } else {
                                assert(w.styled[i].1[k] == v.styled[i].1[k]);
                            }
                        }
                    },
                    None => {
                        assert forall|i: int, k: int|
                            0 <= i < w.styled.len() && 0 <= k < w.styled[i].1.len() implies #[trigger] w.styled[i].1[k].0
                            < w.styled[i].1[k].1 by {
                            if i < v.styled.len() {
                                assert(w.styled[i] == v.styled[i]);
                            }
                        }
                    },
                }
            }
        },
        Mark::Conceal { .. } => {},
    }
}

/// Spans stay well formed under any list of marks.
pub proof fn lemma_apply_marks_wf(v: SpansView, ms: Seq<Mark>)
    requires
        spans_wf(v),
    ensures
        spans_wf(apply_marks(v, ms)),
    decreases ms.len(),
{
    if ms.len() > 0 {
        lemma_apply_marks_wf(v, ms.drop_last());
        lemma_apply_mark_wf(apply_marks(v, ms.drop_last()), ms.last());
    }
}

/// Spans without any range.
pub open spec fn empty_spans() -> SpansView {
    SpansView { styled: Seq::empty(), concealed: Seq::empty() }
}

impl Default for MarkdownSpans {
    /// No ranges at all.
    fn default() -> (r: Self)
        ensures
            r@ == empty_spans(),
    {
        let r = MarkdownSpans { styled: Vec::new(), concealed: Vec::new() };
        assert(r@.styled =~= Seq::<(u8, Seq<(int, int)>)>::empty());
        assert(r@.concealed =~= Seq::<(int, int)>::empty());
        r
    }
}

impl MarkdownSpans {
    /// The ranges to style, per combination of markup, in the order the combinations first came.
    pub fn styled(&self) -> (r: &Vec<(MarkdownCommentStyle, Vec<Range<usize>>)>)
        ensures
            r@.map_values(|g: (MarkdownCommentStyle, Vec<Range<usize>>)| group_view(g)) == self@.styled,
    {
        &self.styled
    }

    /// The ranges to conceal, in the order they came.
    pub fn concealed(&self) -> (r: &Vec<Range<usize>>)
        ensures
            range_pairs(r@) == self@.concealed,
    {
        &self.concealed
    }

    /// Adds a range to the group of `style`; an empty range or an empty style adds nothing.
    pub fn push_style(&mut self, style: MarkdownCommentStyle, range: Range<usize>)
        ensures
            final(self)@ == apply_mark(
                old(self)@,
                Mark::Style { style: style.0, start: range.start as int, end: range.end as int },
            ),
    {
        if range.start >= range.end || style.is_empty() {
            return;
        }
        let ghost groups = self@.styled;
        proof {
            lemma_group_of(groups, style.0);
        }
        let mut i: usize = 0;
        while i < self.styled.len()
            invariant
                0 <= i <= self.styled@.len(),
                self@.styled == groups,
                *self == *old(self),
                groups == old(self)@.styled,
                range.start < range.end,
                style.0 != 0,
                forall|j: int| 0 <= j < i ==> groups[j].0 != style.0,
            decreases self.styled@.len() - i,
        {
            if self.styled[i].0 == style {
                assert(groups[i as int] == group_view(self.styled@[i as int]));
                assert(groups[i as int].0 == style.0);
                proof {
                    lemma_group_of(groups, style.0);
                }
                assert(group_of(groups, style.0) == Some(i as int));
                let ghost before = self.styled@;
                self.styled[i].1.push(range);
                assert(self@.styled =~= groups.update(
                    i as int,
                    (style.0, groups[i as int].1.push((range.start as int, range.end as int))),
                )) by {
                    assert(self.styled@[i as int].1@ =~= before[i as int].1@.push(range));
                    assert(range_pairs(self.styled@[i as int].1@) =~= range_pairs(
                        before[i as int].1@,
                    ).push((range.start as int, range.end as int)));
                }
                return;
            }
            i = i + 1;
        }
        assert(group_of(groups, style.0) is None);
        let mut ranges: Vec<Range<usize>> = Vec::new();
        let ghost (s, e) = (range.start as int, range.end as int);
        ranges.push(range);
        self.styled.push((style, ranges));
        assert(range_pairs(ranges@) =~= seq![(s, e)]);
        assert(self@.styled =~= groups.push((style.0, seq![(s, e)])));
    }

    /// Adds a marker to conceal; an empty range adds nothing.
    pub fn conceal(&mut self, range: Range<usize>)
        ensures
            final(self)@ == apply_mark(
                old(self)@,
                Mark::Conceal { start: range.start as int, end: range.end as int },
            ),
    {
        if range.start < range.end {
            let ghost (s, e) = (range.start as int, range.end as int);
            self.concealed.push(range);
            assert(self@.concealed =~= old(self)@.concealed.push((s, e)));
        }
    }
}

/// Whether two lists of ranges hold the same ranges in the same order.
fn same_ranges(a: &Vec<Range<usize>>, b: &Vec<Range<usize>>) -> (r: bool)
    ensures
        r == (range_pairs(a@) == range_pairs(b@)),
{
    if a.len() != b.len() {
        assert(range_pairs(a@).len() != range_pairs(b@).len());
        return false;
    }
    let mut i: usize = 0;
    while i < a.len()
        invariant
            i <= a@.len() == b@.len(),
            forall|j: int| 0 <= j < i ==> range_pair(#[trigger] a@[j]) == range_pair(b@[j]),
        decreases a@.len() - i,
    {
        if a[i].start != b[i].start || a[i].end != b[i].end {
            assert(range_pairs(a@)[i as int] != range_pairs(b@)[i as int]);
            return false;
        }
        i = i + 1;
    }
    assert(range_pairs(a@) =~= range_pairs(b@));
    true
}

impl MarkdownSpans {
    /// Whether both hold the same ranges, grouped and ordered alike.
    pub fn same_as(&self, other: &MarkdownSpans) -> (r: bool)
        ensures
            r == (self@ == other@),
    {
        if !same_ranges(&self.concealed, &other.concealed) {
            return false;
        }
        let n = self.styled.len();
        if n != other.styled.len() {
            assert(self@.styled.len() != other@.styled.len());
            return false;
        }
        let mut i: usize = 0;
        while i < n
            invariant
                i <= n == self.styled@.len() == other.styled@.len(),
                forall|j: int| 0 <= j < i ==> group_view(#[trigger] self.styled@[j]) == group_view(other.styled@[j]),
            decreases n - i,
        {
            let same_style = self.styled[i].0 == other.styled[i].0;
            if !same_style || !same_ranges(&self.styled[i].1, &other.styled[i].1) {
                assert(self@.styled[i as int] != other@.styled[i as int]);
                return false;
            }
            i = i + 1;
        }
        assert(self@.styled =~= other@.styled);
        true
    }

    /// The styles of the groups, in order.
    pub fn styles(&self) -> (r: Vec<MarkdownCommentStyle>)
        ensures
            r@.map_values(|s: MarkdownCommentStyle| s.0) == self@.styled.map_values(
                |g: (u8, Seq<(int, int)>)| g.0,
            ),
    {
        let mut r: Vec<MarkdownCommentStyle> = Vec::new();
        let mut i: usize = 0;
        while i < self.styled.len()
            invariant
                i <= self.styled@.len(),
                r@.len() == i,
                forall|j: int| 0 <= j < i ==> (#[trigger] r@[j]).0 == self.styled@[j].0.0,
            decreases self.styled@.len() - i,
        {
            r.push(self.styled[i].0);
            i = i + 1;
        }
        assert(r@.map_values(|s: MarkdownCommentStyle| s.0) =~= self@.styled.map_values(
            |g: (u8, Seq<(int, int)>)| g.0,
        ));
        r
    }
}

} // verus!
