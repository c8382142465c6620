//! What marks in the order of the buffer add to spans: the spans already there stay as they
//! are, and the ranges added lie where the marks lie and never overlap one another.
use vstd::prelude::*;

use vstd::utf8::{encode_utf8, valid_utf8};

use crate::buffer::{
    buffer_marks, lemma_cursor_block_keeps_source, rendered_marks, row_rendered, rows_fit,
    BufferRow,
};
use crate::comment::{lemma_row_keeps_delimiter, row_marks, text_start_of};

use crate::inline::{
    inline_marks, is_char_start, lemma_in_order_concat, lemma_inline_next_to_ascii,
    lemma_keep_concat, lemma_marks_in_order, lemma_marks_keep_outer, lemma_marks_tile, marks_tile,
    lemma_next_to_ascii_is_char_start, mark_end, mark_start, marks_in_order, marks_keep,
};
use crate::spans::{
    apply_mark, apply_marks, empty_spans, group_of, lemma_group_of, Mark, SpansView,
};
use crate::style::{has_bits, lemma_has_bits_not_empty};

verus! {

/// `w` holds everything `v` holds, in the same places: the concealed ranges of `v` start those
/// of `w`, each group of `v` has the same style in `w`, and its ranges start those of the group
/// in `w`.
pub open spec fn extends(v: SpansView, w: SpansView) -> bool {
    &&& v.concealed.len() <= w.concealed.len()
    &&& forall|k: int| 0 <= k < v.concealed.len() ==> #[trigger] w.concealed[k] == v.concealed[k]
    &&& v.styled.len() <= w.styled.len()
    &&& forall|i: int|
        0 <= i < v.styled.len() ==> (#[trigger] w.styled[i]).0 == v.styled[i].0
            && v.styled[i].1.len() <= w.styled[i].1.len()
    &&& forall|i: int, k: int|
        0 <= i < v.styled.len() && 0 <= k < v.styled[i].1.len() ==> #[trigger] w.styled[i].1[k]
            == v.styled[i].1[k]
}

/// Whether the concealed range at `k` of `w` was added to `v`.
pub open spec fn added_concealed(v: SpansView, w: SpansView, k: int) -> bool {
    v.concealed.len() <= k < w.concealed.len()
}

/// Whether the range at `k` of the group at `i` of `w` was added to `v`.
pub open spec fn added_styled(v: SpansView, w: SpansView, i: int, k: int) -> bool {
    &&& 0 <= i < w.styled.len()
    &&& 0 <= k < w.styled[i].1.len()
    &&& (i >= v.styled.len() || k >= v.styled[i].1.len())
}

/// A range that is not empty, lies between `lo` and `hi`, and of which `q` holds.
pub open spec fn range_inside(r: (int, int), lo: int, hi: int, q: spec_fn((int, int)) -> bool) -> bool {
    lo <= r.0 < r.1 <= hi && q(r)
}

/// Two ranges that do not overlap.
pub open spec fn ranges_apart(a: (int, int), b: (int, int)) -> bool {
    a.1 <= b.0 || b.1 <= a.0
}

/// Every range added lies inside, and every group that got a range carries `outer`.
pub open spec fn added_inside(
    v: SpansView,
    w: SpansView,
    lo: int,
    hi: int,
    outer: u8,
    q: spec_fn((int, int)) -> bool,
) -> bool {
    &&& forall|k: int| added_concealed(v, w, k) ==> range_inside(#[trigger] w.concealed[k], lo, hi, q)
    &&& forall|i: int, k: int|
        added_styled(v, w, i, k) ==> range_inside(#[trigger] w.styled[i].1[k], lo, hi, q)
            && has_bits(w.styled[i].0, outer)
}

/// No two ranges added overlap, concealed or styled.
pub open spec fn added_apart(v: SpansView, w: SpansView) -> bool {
    &&& forall|k1: int, k2: int|
        added_concealed(v, w, k1) && added_concealed(v, w, k2) && k1 != k2 ==> ranges_apart(
            #[trigger] w.concealed[k1],
            #[trigger] w.concealed[k2],
        )
    &&& forall|i1: int, k1: int, i2: int, k2: int|
        added_styled(v, w, i1, k1) && added_styled(v, w, i2, k2) && (i1 != i2 || k1 != k2)
            ==> ranges_apart(#[trigger] w.styled[i1].1[k1], #[trigger] w.styled[i2].1[k2])
    &&& forall|k: int, i: int, k2: int|
        added_concealed(v, w, k) && added_styled(v, w, i, k2) ==> ranges_apart(
            #[trigger] w.concealed[k],
            #[trigger] w.styled[i].1[k2],
        )
}

/// Where the last of the marks ends, or `lo` when there is none.
pub open spec fn marks_end(ms: Seq<Mark>, lo: int) -> int {
    if ms.len() == 0 {
        lo
    } else {
        mark_end(ms.last())
    }
}

/// One mark after all the others adds at most one range, past every range added before.
#[verifier::spinoff_prover]
proof fn lemma_apply_mark_step(
    v: SpansView,
    w: SpansView,
    m: Mark,
    lo: int,
    bound: int,
    outer: u8,
    q: spec_fn((int, int)) -> bool,
)
    requires
        extends(v, w),
        added_inside(v, w, lo, bound, outer, q),
        added_apart(v, w),
        lo <= bound <= mark_start(m) < mark_end(m),
        q((mark_start(m), mark_end(m))),
        m matches Mark::Style { style, .. } ==> has_bits(style, outer),
    ensures
        extends(v, apply_mark(w, m)),
        added_inside(v, apply_mark(w, m), lo, mark_end(m), outer, q),
        added_apart(v, apply_mark(w, m)),
{
    let w2 = apply_mark(w, m);
    let r = (mark_start(m), mark_end(m));
    let hi = mark_end(m);
    assert forall|k: int| added_concealed(v, w, k) implies range_inside(
        #[trigger] w.concealed[k],
        lo,
        hi,
        q,
    ) by {}
    assert forall|i: int, k: int| added_styled(v, w, i, k) implies range_inside(
        #[trigger] w.styled[i].1[k],
        lo,
        hi,
        q,
    ) && has_bits(w.styled[i].0, outer) by {}
    assert(added_inside(v, w, lo, hi, outer, q));
    match m {
        Mark::Style { style, start, end } => {
            if style != 0 {
                lemma_group_of(w.styled, style);
                match group_of(w.styled, style) {
                    Some(g) => {
                        let n = w.styled[g].1.len() as int;
                        assert(w2.styled[g].1[n] == r);
                        assert(w2.concealed == w.concealed);
                        assert forall|k: int| added_concealed(v, w2, k) implies range_inside(
                            #[trigger] w2.concealed[k],
                            lo,
                            hi,
                            q,
                        ) by {
                            assert(added_concealed(v, w, k));
                        }
                        assert forall|i: int, k: int|
                            0 <= i < w.styled.len() && 0 <= k < w.styled[i].1.len() implies #[trigger] w2.styled[i].1[k]
                            == w.styled[i].1[k] by {
                            if i == g {
                                assert(w2.styled[i].1 == w.styled[g].1.push(r));
                            }
                        }
                        assert forall|i: int| 0 <= i < w.styled.len() implies (#[trigger] w2.styled[i]).0
                            == w.styled[i].0 && w.styled[i].1.len() <= w2.styled[i].1.len() by {}
                        assert(added_styled(v, w2, g, n));
                        assert forall|i: int, k: int| added_styled(v, w2, i, k) implies (i == g && k == n)
                            || added_styled(v, w, i, k) by {}
                        assert forall|i: int, k: int| added_styled(v, w2, i, k) implies range_inside(
                            #[trigger] w2.styled[i].1[k],
                            lo,
                            hi,
                            q,
                        ) && has_bits(w2.styled[i].0, outer) by {
                            if !(i == g && k == n) {
                                assert(w2.styled[i].1[k] == w.styled[i].1[k]);
                            }
                        }
                        assert forall|i1: int, k1: int, i2: int, k2: int|
                            added_styled(v, w2, i1, k1) && added_styled(v, w2, i2, k2) && (i1 != i2
                                || k1 != k2) implies ranges_apart(
                            #[trigger] w2.styled[i1].1[k1],
                            #[trigger] w2.styled[i2].1[k2],
                        ) by {
                            if !(i1 == g && k1 == n) {
                                assert(w2.styled[i1].1[k1] == w.styled[i1].1[k1]);
                            }
                            if !(i2 == g && k2 == n) {
                                assert(w2.styled[i2].1[k2] == w.styled[i2].1[k2]);
                            }
                        }
                        assert forall|k: int, i: int, k2: int|
                            added_concealed(v, w2, k) && added_styled(v, w2, i, k2) implies ranges_apart(
                            #[trigger] w2.concealed[k],
                            #[trigger] w2.styled[i].1[k2],
                        ) by {
                            if !(i == g && k2 == n) {
                                assert(w2.styled[i].1[k2] == w.styled[i].1[k2]);
                            }
                        }
                    },
                    None => {
                        let g = w.styled.len() as int;
                        assert(w2.styled[g].1[0] == r);
                        assert(w2.concealed == w.concealed);
                        assert forall|k: int| added_concealed(v, w2, k) implies range_inside(
                            #[trigger] w2.concealed[k],
                            lo,
                            hi,
                            q,
                        ) by {
                            assert(added_concealed(v, w, k));
                        }
                        assert forall|i: int, k: int|
                            0 <= i < w.styled.len() && 0 <= k < w.styled[i].1.len() implies #[trigger] w2.styled[i].1[k]
                            == w.styled[i].1[k] by {}
                        assert forall|i: int| 0 <= i < w.styled.len() implies (#[trigger] w2.styled[i]).0
                            == w.styled[i].0 && w.styled[i].1.len() <= w2.styled[i].1.len() by {}
                        assert forall|i: int, k: int| added_styled(v, w2, i, k) implies (i == g && k == 0)
                            || added_styled(v, w, i, k) by {}
                        assert forall|i: int, k: int| added_styled(v, w2, i, k) implies range_inside(
                            #[trigger] w2.styled[i].1[k],
                            lo,
                            hi,
                            q,
                        ) && has_bits(w2.styled[i].0, outer) by {
                            if i != g {
                                assert(w2.styled[i].1[k] == w.styled[i].1[k]);
                            }
                        }
                        assert forall|i1: int, k1: int, i2: int, k2: int|
                            added_styled(v, w2, i1, k1) && added_styled(v, w2, i2, k2) && (i1 != i2
                                || k1 != k2) implies ranges_apart(
                            #[trigger] w2.styled[i1].1[k1],
                            #[trigger] w2.styled[i2].1[k2],
                        ) by {
                            if i1 != g {
                                assert(w2.styled[i1].1[k1] == w.styled[i1].1[k1]);
                            }
                            if i2 != g {
                                assert(w2.styled[i2].1[k2] == w.styled[i2].1[k2]);
                            }
                        }
                        assert forall|k: int, i: int, k2: int|
                            added_concealed(v, w2, k) && added_styled(v, w2, i, k2) implies ranges_apart(
                            #[trigger] w2.concealed[k],
                            #[trigger] w2.styled[i].1[k2],
                        ) by {
                            if i != g {
                                assert(w2.styled[i].1[k2] == w.styled[i].1[k2]);
                            }
                        }
                    },
                }
            }
        },
        Mark::Conceal { start, end } => {
            let n = w.concealed.len() as int;
            assert(w2.styled == w.styled);
            assert(w2.concealed[n] == r);
            assert forall|k: int| 0 <= k < n implies #[trigger] w2.concealed[k] == w.concealed[k] by {}
            assert forall|k: int| added_concealed(v, w2, k) implies range_inside(
                #[trigger] w2.concealed[k],
                lo,
                hi,
                q,
            ) by {
                if k < n {
                    assert(w2.concealed[k] == w.concealed[k]);
                }
            }
            assert forall|k1: int, k2: int|
                added_concealed(v, w2, k1) && added_concealed(v, w2, k2) && k1 != k2 implies ranges_apart(
                #[trigger] w2.concealed[k1],
                #[trigger] w2.concealed[k2],
            ) by {
                if k1 < n {
                    assert(w2.concealed[k1] == w.concealed[k1]);
                }
                if k2 < n {
                    assert(w2.concealed[k2] == w.concealed[k2]);
                }
            }
            assert forall|k: int, i: int, k2: int|
                added_concealed(v, w2, k) && added_styled(v, w2, i, k2) implies ranges_apart(
                #[trigger] w2.concealed[k],
                #[trigger] w2.styled[i].1[k2],
            ) by {
                if k < n {
                    assert(w2.concealed[k] == w.concealed[k]);
                }
            }
        },
    }
}

/// The range of every mark satisfies `q`.
pub open spec fn marks_satisfy(ms: Seq<Mark>, q: spec_fn((int, int)) -> bool) -> bool {
    forall|j: int| 0 <= j < ms.len() ==> q((mark_start(#[trigger] ms[j]), mark_end(ms[j])))
}

proof fn lemma_apply_in_order(
    v: SpansView,
    ms: Seq<Mark>,
    lo: int,
    hi: int,
    outer: u8,
    q: spec_fn((int, int)) -> bool,
)
    requires
        lo <= hi,
        marks_in_order(ms, lo, hi),
        marks_keep(ms, outer),
        marks_satisfy(ms, q),
    ensures
        extends(v, apply_marks(v, ms)),
        added_inside(v, apply_marks(v, ms), lo, marks_end(ms, lo), outer, q),
        added_apart(v, apply_marks(v, ms)),
        lo <= marks_end(ms, lo) <= hi,
    decreases ms.len(),
{
    if ms.len() == 0 {
        assert(apply_marks(v, ms) == v);
    } else {
        let p = ms.drop_last();
        let m = ms.last();
        assert forall|j: int| 0 <= j < p.len() implies #[trigger] p[j] == ms[j] by {}
        assert(marks_in_order(p, lo, hi)) by {
            assert forall|i: int, j: int| 0 <= i < j < p.len() implies mark_end(#[trigger] p[i])
                <= mark_start(#[trigger] p[j]) by {
                assert(p[i] == ms[i] && p[j] == ms[j]);
            }
        }
        assert(marks_keep(p, outer)) by {
            assert forall|j: int| 0 <= j < p.len() implies (#[trigger] p[j] matches Mark::Style {
                style,
                ..
            } ==> has_bits(style, outer)) by {
                assert(p[j] == ms[j]);
            }
        }
        assert(marks_satisfy(p, q)) by {
            assert forall|j: int| 0 <= j < p.len() implies q(
                (mark_start(#[trigger] p[j]), mark_end(p[j])),
            ) by {
                assert(p[j] == ms[j]);
            }
        }
        lemma_apply_in_order(v, p, lo, hi, outer, q);
        assert(lo <= mark_start(ms[ms.len() - 1]) < mark_end(ms[ms.len() - 1]) <= hi);
        if p.len() > 0 {
            assert(mark_end(ms[p.len() - 1]) <= mark_start(ms[ms.len() - 1]));
        }
        assert(q((mark_start(ms[ms.len() - 1]), mark_end(ms[ms.len() - 1]))));
        assert(ms[ms.len() - 1] matches Mark::Style { style, .. } ==> has_bits(style, outer));
        lemma_apply_mark_step(v, apply_marks(v, p), m, lo, marks_end(p, lo), outer, q);
    }
}

/// Marks in the order of the buffer, between `lo` and `hi`, add to any spans without touching
/// what the spans held: every range they add is not empty, lies between `lo` and `hi`, meets
/// `q` when the range of every mark does, and overlaps no other range added; every styled range
/// added carries `outer` when every styled mark does.
#[verifier::spinoff_prover]
pub proof fn lemma_marks_add_apart(
    v: SpansView,
    ms: Seq<Mark>,
    lo: int,
    hi: int,
    outer: u8,
    q: spec_fn((int, int)) -> bool,
)
    requires
        lo <= hi,
        marks_in_order(ms, lo, hi),
        marks_keep(ms, outer),
        marks_satisfy(ms, q),
    ensures
        extends(v, apply_marks(v, ms)),
        added_inside(v, apply_marks(v, ms), lo, hi, outer, q),
        added_apart(v, apply_marks(v, ms)),
{
    lemma_apply_in_order(v, ms, lo, hi, outer, q);
    let w = apply_marks(v, ms);
    let e = marks_end(ms, lo);
    assert forall|k: int| added_concealed(v, w, k) implies range_inside(
        #[trigger] w.concealed[k],
        lo,
        hi,
        q,
    ) by {
        assert(range_inside(w.concealed[k], lo, e, q));
    }
    assert forall|i: int, k: int| added_styled(v, w, i, k) implies range_inside(
        #[trigger] w.styled[i].1[k],
        lo,
        hi,
        q,
    ) && has_bits(w.styled[i].0, outer) by {
        assert(range_inside(w.styled[i].1[k], lo, e, q));
    }
}

/// The ranges of a text that sit on character boundaries of its bytes.
pub open spec fn on_char_boundaries(s: Seq<u8>, offset: int) -> spec_fn((int, int)) -> bool {
    |r: (int, int)| is_char_start(s, r.0 - offset) && is_char_start(s, r.1 - offset)
}

/// Parsing a text adds to the spans without touching what they held: the concealed ranges and
/// the ranges of every group already there stay first, in place. Every range added is not
/// empty, lies in the text, starts and ends on character boundaries of its UTF-8 bytes, and
/// overlaps no other range added; every styled range added carries the markup `outer` that the
/// markers around the text gave it.
pub proof fn lemma_parse_adds_apart(v: SpansView, s: Seq<u8>, offset: int, outer: u8)
    requires
        valid_utf8(s),
    ensures
        extends(v, apply_marks(v, inline_marks(s, offset, outer))),
        added_inside(
            v,
            apply_marks(v, inline_marks(s, offset, outer)),
            offset,
            offset + s.len(),
            outer,
            on_char_boundaries(s, offset),
        ),
        added_apart(v, apply_marks(v, inline_marks(s, offset, outer))),
{
    let ms = inline_marks(s, offset, outer);
    lemma_marks_in_order(s, offset, outer);
    lemma_marks_keep_outer(s, offset, outer);
    lemma_inline_next_to_ascii(s, offset, outer);
    let q = on_char_boundaries(s, offset);
    assert forall|j: int| 0 <= j < ms.len() implies q(
        (mark_start(#[trigger] ms[j]), mark_end(ms[j])),
    ) by {
        lemma_next_to_ascii_is_char_start(s, mark_start(ms[j]) - offset);
        lemma_next_to_ascii_is_char_start(s, mark_end(ms[j]) - offset);
    }
    lemma_marks_add_apart(v, ms, offset, offset + s.len(), outer, q);
}

/// The rows lie in the buffer one after the other: each row ends before the next one starts.
pub open spec fn rows_in_order(rows: Seq<BufferRow>) -> bool {
    forall|i: int, j: int|
        0 <= i < j < rows.len() ==> (#[trigger] rows[i]).start + encode_utf8(rows[i].text@).len()
            <= (#[trigger] rows[j]).start
}

/// The ranges that lie in the text of one rendered comment row: after its delimiter and the
/// spaces that follow it, and before its end.
pub open spec fn in_rendered_text(rows: Seq<BufferRow>, cursors: Seq<u32>) -> spec_fn(
    (int, int),
) -> bool {
    |r: (int, int)|
        exists|i: int|
            0 <= i < rows.len() && #[trigger] row_rendered(rows, cursors, i) && match text_start_of(
                rows[i].text@,
            ) {
                Some(k) => rows[i].start + k <= r.0 && r.1 <= rows[i].start + encode_utf8(
                    rows[i].text@,
                ).len(),
                None => false,
            }
}

proof fn lemma_in_order_widen(ms: Seq<Mark>, lo: int, hi: int, lo2: int, hi2: int)
    requires
        marks_in_order(ms, lo, hi),
        lo2 <= lo,
        hi <= hi2,
    ensures
        marks_in_order(ms, lo2, hi2),
{
}

proof fn lemma_satisfy_concat(a: Seq<Mark>, b: Seq<Mark>, q: spec_fn((int, int)) -> bool)
    requires
        marks_satisfy(a, q),
        marks_satisfy(b, q),
    ensures
        marks_satisfy(a + b, q),
{
    let c = a + b;
    assert forall|j: int| 0 <= j < c.len() implies q(
        (mark_start(#[trigger] c[j]), mark_end(c[j])),
    ) by {
        if j < a.len() {
            assert(c[j] == a[j]);
        } else {
            assert(c[j] == b[j - a.len()]);
        }
    }
}

/// Where the rows from `from` on start: the start of row `from`, or the last offset when none is
/// left.
spec fn rows_from(rows: Seq<BufferRow>, from: int) -> int {
    if from < rows.len() {
        rows[from].start as int
    } else {
        usize::MAX as int
    }
}

proof fn lemma_rendered_shape(rows: Seq<BufferRow>, cursors: Seq<u32>, from: int)
    requires
        rows_in_order(rows),
        rows_fit(rows),
        0 <= from <= rows.len(),
    ensures
        marks_in_order(rendered_marks(rows, cursors, from), rows_from(rows, from), usize::MAX as int),
        marks_keep(rendered_marks(rows, cursors, from), 0),
        marks_satisfy(rendered_marks(rows, cursors, from), in_rendered_text(rows, cursors)),
    decreases rows.len() - from,
{
    if from < rows.len() {
        let row = rows[from];
        let st = row.start as int;
        let blen = encode_utf8(row.text@).len() as int;
        let a = if row_rendered(rows, cursors, from) {
            row_marks(row.text@, st)
        } else {
            seq![]
        };
        let b = rendered_marks(rows, cursors, from + 1);
        lemma_rendered_shape(rows, cursors, from + 1);
        assert(st + blen <= usize::MAX);
        if from + 1 < rows.len() {
            assert(st + blen <= rows[from + 1].start);
        }
        lemma_in_order_widen(b, rows_from(rows, from + 1), usize::MAX as int, st + blen, usize::MAX as int);
        lemma_row_keeps_delimiter(row.text@, st);
        if row_rendered(rows, cursors, from) {
            if let Some(k) = text_start_of(row.text@) {
                lemma_in_order_widen(a, st + k, st + blen, st, st + blen);
                let text = encode_utf8(row.text@).subrange(k, blen);
                lemma_marks_keep_outer(text, st + k, 0);
                let q = in_rendered_text(rows, cursors);
                assert forall|j: int| 0 <= j < a.len() implies q(
                    (mark_start(#[trigger] a[j]), mark_end(a[j])),
                ) by {
                    assert(row_rendered(rows, cursors, from));
                }
            }
        }
        lemma_in_order_concat(a, b, st, st + blen, usize::MAX as int);
        lemma_keep_concat(a, b, 0);
        lemma_satisfy_concat(a, b, in_rendered_text(rows, cursors));
    }
}

/// Across a whole buffer whose rows lie one after the other, the spans drawn never overlap: no
/// two ranges, styled or concealed, share a byte, and each one is not empty and lies in the text
/// of one comment row, after its delimiter, in a block that holds no cursor. No range touches a
/// row outside comments.
pub proof fn lemma_buffer_spans_apart(rows: Seq<BufferRow>, cursors: Seq<u32>)
    requires
        rows_in_order(rows),
        rows_fit(rows),
    ensures
        added_inside(
            empty_spans(),
            apply_marks(empty_spans(), buffer_marks(rows, cursors, 0)),
            0,
            usize::MAX as int,
            0,
            in_rendered_text(rows, cursors),
        ),
        added_apart(empty_spans(), apply_marks(empty_spans(), buffer_marks(rows, cursors, 0))),
{
    lemma_cursor_block_keeps_source(rows, cursors);
    lemma_rendered_shape(rows, cursors, 0);
    lemma_in_order_widen(
        rendered_marks(rows, cursors, 0),
        rows_from(rows, 0),
        usize::MAX as int,
        0,
        usize::MAX as int,
    );
    lemma_marks_add_apart(
        empty_spans(),
        rendered_marks(rows, cursors, 0),
        0,
        usize::MAX as int,
        0,
        in_rendered_text(rows, cursors),
    );
}

/// Whether offset `p` lies in a range that `w` added to `v`, styled or concealed.
pub open spec fn covered(v: SpansView, w: SpansView, p: int) -> bool {
    ||| exists|k: int|
        added_concealed(v, w, k) && (#[trigger] w.concealed[k]).0 <= p < w.concealed[k].1
    ||| exists|i: int, k: int|
        added_styled(v, w, i, k) && (#[trigger] w.styled[i].1[k]).0 <= p < w.styled[i].1[k].1
}

/// One mark never takes away or moves what the spans hold.
proof fn lemma_apply_mark_grows(w: SpansView, m: Mark)
    ensures
        extends(w, apply_mark(w, m)),
{
    let w2 = apply_mark(w, m);
    if let Mark::Style { style, start, end } = m {
        if start < end && style != 0 {
            lemma_group_of(w.styled, style);
            if let Some(g) = group_of(w.styled, style) {
                assert forall|i: int, k: int|
                    0 <= i < w.styled.len() && 0 <= k < w.styled[i].1.len() implies #[trigger] w2.styled[i].1[k]
                    == w.styled[i].1[k] by {
                    if i == g {
                        assert(w2.styled[i].1 == w.styled[g].1.push((start, end)));
                    }
                }
            }
        }
    }
}

/// What a later state still holds, an offset covered before stays covered.
proof fn lemma_covered_grows(v: SpansView, w: SpansView, w2: SpansView, p: int)
    requires
        extends(v, w),
        extends(w, w2),
        covered(v, w, p),
    ensures
        covered(v, w2, p),
{
    if exists|k: int|
        added_concealed(v, w, k) && (#[trigger] w.concealed[k]).0 <= p < w.concealed[k].1 {
        let k = choose|k: int|
            added_concealed(v, w, k) && (#[trigger] w.concealed[k]).0 <= p < w.concealed[k].1;
        assert(w2.concealed[k] == w.concealed[k]);
        assert(added_concealed(v, w2, k));
    } else {
        let (i, k) = choose|i: int, k: int|
            added_styled(v, w, i, k) && (#[trigger] w.styled[i].1[k]).0 <= p < w.styled[i].1[k].1;
        assert(w2.styled[i].1[k] == w.styled[i].1[k]);
        assert(w2.styled[i] == w2.styled[i]);
        assert(added_styled(v, w2, i, k));
    }
}

/// A mark with a range and, when it styles, some markup, covers its own range once applied.
proof fn lemma_apply_mark_covers(v: SpansView, w: SpansView, m: Mark, p: int)
    requires
        extends(v, w),
        mark_start(m) <= p < mark_end(m),
        m matches Mark::Style { style, .. } ==> style != 0,
    ensures
        covered(v, apply_mark(w, m), p),
{
    let w2 = apply_mark(w, m);
    let r = (mark_start(m), mark_end(m));
    match m {
        Mark::Style { style, start, end } => {
            lemma_group_of(w.styled, style);
            match group_of(w.styled, style) {
                Some(g) => {
                    let n = w.styled[g].1.len() as int;
                    assert(w2.styled[g].1[n] == r);
                    assert(added_styled(v, w2, g, n));
                },
                None => {
                    let g = w.styled.len() as int;
                    assert(w2.styled[g].1[0] == r);
                    assert(added_styled(v, w2, g, 0));
                },
            }
        },
        Mark::Conceal { start, end } => {
            let n = w.concealed.len() as int;
            assert(w2.concealed[n] == r);
            assert(added_concealed(v, w2, n));
        },
    }
}

/// Every offset inside the range of some mark is covered once the marks are applied.
proof fn lemma_marks_cover(v: SpansView, ms: Seq<Mark>, j: int, p: int)
    requires
        0 <= j < ms.len(),
        mark_start(ms[j]) <= p < mark_end(ms[j]),
        ms[j] matches Mark::Style { style, .. } ==> style != 0,
    ensures
        extends(v, apply_marks(v, ms)),
        covered(v, apply_marks(v, ms), p),
    decreases ms.len(),
{
    let prev = ms.drop_last();
    lemma_extends_marks(v, prev);
    lemma_apply_mark_grows(apply_marks(v, prev), ms.last());
    lemma_extends_trans(v, apply_marks(v, prev), apply_marks(v, ms));
    if j == ms.len() - 1 {
        lemma_apply_mark_covers(v, apply_marks(v, prev), ms.last(), p);
    } else {
        assert(prev[j] == ms[j]);
        lemma_marks_cover(v, prev, j, p);
        lemma_covered_grows(v, apply_marks(v, prev), apply_marks(v, ms), p);
    }
}

proof fn lemma_extends_trans(a: SpansView, b: SpansView, c: SpansView)
    requires
        extends(a, b),
        extends(b, c),
    ensures
        extends(a, c),
{
    assert forall|i: int, k: int|
        0 <= i < a.styled.len() && 0 <= k < a.styled[i].1.len() implies #[trigger] c.styled[i].1[k]
        == a.styled[i].1[k] by {
        assert(b.styled[i].1[k] == a.styled[i].1[k]);
    }
}

/// Applying marks never takes away or moves what the spans hold.
proof fn lemma_extends_marks(v: SpansView, ms: Seq<Mark>)
    ensures
        extends(v, apply_marks(v, ms)),
    decreases ms.len(),
{
    if ms.len() > 0 {
        lemma_extends_marks(v, ms.drop_last());
        lemma_apply_mark_grows(apply_marks(v, ms.drop_last()), ms.last());
        lemma_extends_trans(v, apply_marks(v, ms.drop_last()), apply_marks(v, ms));
    }
}

/// Marks that tile a range leave no offset of it outside their ranges.
proof fn lemma_tile_has_mark(ms: Seq<Mark>, lo: int, hi: int, p: int) -> (j: int)
    requires
        marks_tile(ms, lo, hi),
        lo <= p < hi,
    ensures
        0 <= j < ms.len(),
        mark_start(ms[j]) <= p < mark_end(ms[j]),
    decreases ms.len(),
{
    let n = ms.len() as int;
    if p >= mark_start(ms[n - 1]) {
        n - 1
    } else {
        let prev = ms.drop_last();
        assert forall|j: int| 0 <= j < prev.len() implies #[trigger] prev[j] == ms[j] by {}
        assert(marks_tile(prev, lo, mark_start(ms[n - 1]))) by {
            assert forall|i: int, j: int| 0 <= i < j < prev.len() implies mark_end(#[trigger] prev[i])
                <= mark_start(#[trigger] prev[j]) by {
                assert(prev[i] == ms[i] && prev[j] == ms[j]);
            }
            assert forall|i: int| 0 <= i < prev.len() implies lo <= mark_start(#[trigger] prev[i])
                < mark_end(prev[i]) <= mark_start(ms[n - 1]) by {
                assert(mark_end(ms[i]) <= mark_start(ms[n - 1]));
            }
            assert forall|i: int| 0 <= i < prev.len() - 1 implies mark_end(#[trigger] prev[i])
                == mark_start(prev[i + 1]) by {
                assert(prev[i + 1] == ms[i + 1]);
            }
            if prev.len() > 0 {
                assert(mark_end(ms[n - 2]) == mark_start(ms[n - 1]));
            }
        }
        let j = lemma_tile_has_mark(prev, lo, mark_start(ms[n - 1]), p);
        j
    }
}

/// Under markup, parsing a text covers it whole: every offset of the text lies in a range that
/// the parse added, styled or concealed.
pub proof fn lemma_parse_covers(v: SpansView, s: Seq<u8>, offset: int, outer: u8, p: int)
    requires
        outer != 0,
        offset <= p < offset + s.len(),
    ensures
        covered(v, apply_marks(v, inline_marks(s, offset, outer)), p),
{
    let ms = inline_marks(s, offset, outer);
    lemma_marks_tile(s, offset, outer);
    lemma_marks_keep_outer(s, offset, outer);
    let j = lemma_tile_has_mark(ms, offset, offset + s.len(), p);
    if let Mark::Style { style, .. } = ms[j] {
        lemma_has_bits_not_empty(style, outer);
    }
    lemma_marks_cover(v, ms, j, p);
}

} // verus!
