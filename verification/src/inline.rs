//! The inline Markdown of one comment text: headings, code spans, emphasis and links.
use std::ops::Range;

use vstd::prelude::*;
use vstd::slice::slice_subrange;
use vstd::string::StringSliceAdditionalSpecFns;
use vstd::utf8::{length_of_first_scalar, pop_first_scalar, valid_first_scalar, valid_utf8};

use crate::markers::{
    can_open, closing_run, find_closing, find_marker_run, first_index_of, heading_level,
    heading_of, lemma_closing_run, lemma_first_index_of, lemma_heading_level_law,
    lemma_run_length_bounds, lemma_run_length_exact, marker_run, opens_emphasis, run_length,
    is_ascii_space, can_close, is_ascii_alnum,
};
use crate::spans::{apply_mark, apply_marks, lemma_apply_marks_concat, Mark, MarkdownSpans, SpansView};
use crate::style::{
    has_bits, lemma_has_bits_refl, lemma_has_bits_weaken, lemma_with_keeps_both,
    lemma_with_not_empty, MarkdownCommentStyle, BOLD, CODE, HEADING, ITALIC, LINK,
};

verus! {

/// Markup found inside a text: the range it applies to, and where it ends.
struct Nested {
    content: Range<usize>,
    end: usize,
    style: MarkdownCommentStyle,
    parse_content: bool,
}

/// Markup found inside a text, as plain offsets into the text: its content runs from
/// `content_start` to `content_end`, its closing marker ends at `end`, and the content is parsed
/// for markup of its own when `parse_content` holds.
pub struct NestedSpan {
    pub content_start: int,
    pub content_end: int,
    pub end: int,
    pub style: u8,
    pub parse_content: bool,
}

spec fn nested_span(n: Nested) -> NestedSpan {
    NestedSpan {
        content_start: n.content.start as int,
        content_end: n.content.end as int,
        end: n.end as int,
        style: n.style.0,
        parse_content: n.parse_content,
    }
}

/// The markup of a run of `run` emphasis markers: one is italic, two bold, three both.
pub open spec fn emphasis_bits(run: int) -> u8 {
    if run == 1 {
        ITALIC
    } else if run == 2 {
        BOLD
    } else {
        BOLD | ITALIC
    }
}

/// The markup that opens at `index`, if any:
/// - a backtick and the next backtick enclose a code span, whose content holds no markup;
/// - a run of `*` or `_` (counted up to three) that can open emphasis, and the next run of as
///   many of them that can close it, enclose italic, bold, or bold italic text;
/// - `[`, the next `]` right followed by `(`, and the next `)` after that enclose a link, whose
///   text runs up to the `]`.
pub open spec fn nested_at(s: Seq<u8>, index: int) -> Option<NestedSpan> {
    let b = s[index];
    if b == 0x60 {
        match first_index_of(s, index + 1, 0x60) {
            Some(e) => Some(
                NestedSpan {
                    content_start: index + 1,
                    content_end: e,
                    end: e + 1,
                    style: CODE,
                    parse_content: false,
                },
            ),
            None => None,
        }
    } else if b == 0x2a || b == 0x5f {
        let found = run_length(s, index, b) as int;
        let run = if found < 3 {
            found
        } else {
            3
        };
        if can_open(s, index, run, b) {
            match closing_run(s, index + run, index + run, b, run) {
                Some(e) => Some(
                    NestedSpan {
                        content_start: index + run,
                        content_end: e,
                        end: e + run,
                        style: emphasis_bits(run),
                        parse_content: true,
                    },
                ),
                None => None,
            }
        } else {
            None
        }
    } else if b == 0x5b {
        match first_index_of(s, index + 1, 0x5d) {
            Some(text_end) => if text_end + 1 < s.len() && s[text_end + 1] == 0x28 {
                match first_index_of(s, text_end + 2, 0x29) {
                    Some(url_end) => Some(
                        NestedSpan {
                            content_start: index + 1,
                            content_end: text_end,
                            end: url_end + 1,
                            style: LINK,
                            parse_content: true,
                        },
                    ),
                    None => None,
                }
            } else {
                None
            },
            None => None,
        }
    } else {
        None
    }
}

/// Markup found at `index` lies inside the text, after its opening marker.
pub proof fn lemma_nested_bounds(s: Seq<u8>, index: int)
    requires
        0 <= index < s.len(),
    ensures
        nested_at(s, index) matches Some(n) ==> index < n.content_start <= n.content_end < n.end
            <= s.len(),
{
    let b = s[index];
    if b == 0x60 {
        lemma_first_index_of(s, index + 1, 0x60);
    } else if b == 0x2a || b == 0x5f {
        lemma_run_length_bounds(s, index, b);
        let found = run_length(s, index, b) as int;
        let run = if found < 3 {
            found
        } else {
            3
        };
        lemma_closing_run(s, index + run, index + run, b, run);
    } else if b == 0x5b {
        lemma_first_index_of(s, index + 1, 0x5d);
        if let Some(text_end) = first_index_of(s, index + 1, 0x5d) {
            lemma_first_index_of(s, text_end + 2, 0x29);
        }
    }
}

/// A styled range, when it is not empty and carries markup.
pub open spec fn style_mark(style: u8, start: int, end: int) -> Seq<Mark> {
    if start < end && style != 0 {
        seq![Mark::Style { style, start, end }]
    } else {
        seq![]
    }
}

/// A concealed range, when it is not empty.
pub open spec fn conceal_mark(start: int, end: int) -> Seq<Mark> {
    if start < end {
        seq![Mark::Conceal { start, end }]
    } else {
        seq![]
    }
}

/// The marks of the text `s`, whose first byte sits at `offset` in the buffer, under the markup
/// `outer` that the markers around it already gave it.
///
/// A heading conceals its `#` and the space, and its text is parsed with the heading markup
/// added; any other text is scanned for nested markup from its start.
pub open spec fn inline_marks(s: Seq<u8>, offset: int, outer: u8) -> Seq<Mark>
    decreases s.len(), s.len() + 1,
{
    match heading_of(s) {
        Some(level) => conceal_mark(offset, offset + level + 1) + inline_marks(
            s.subrange(level + 1, s.len() as int),
            offset + level + 1,
            outer | HEADING,
        ),
        None => scan_marks(s, offset, outer, 0, 0),
    }
}

/// The marks of the text `s` from `index` on, where the plain text not yet styled starts at
/// `plain`.
///
/// Plain text gets `outer`. Nested markup conceals its opening and its closing marker; its
/// content gets `outer` with the markup added, and is parsed in turn unless it is a code span.
pub open spec fn scan_marks(s: Seq<u8>, offset: int, outer: u8, index: int, plain: int) -> Seq<
    Mark,
>
    decreases s.len(), s.len() - index,
{
    if index < 0 || index >= s.len() {
        style_mark(outer, offset + plain, offset + s.len())
    } else {
        match nested_at(s, index) {
            None => scan_marks(s, offset, outer, index + 1, plain),
            Some(n) => {
                proof {
                    lemma_nested_bounds(s, index);
                }
                style_mark(outer, offset + plain, offset + index) + conceal_mark(
                    offset + index,
                    offset + n.content_start,
                ) + (if n.parse_content {
                    inline_marks(
                        s.subrange(n.content_start, n.content_end),
                        offset + n.content_start,
                        outer | n.style,
                    )
                } else {
                    style_mark(outer | n.style, offset + n.content_start, offset + n.content_end)
                }) + conceal_mark(offset + n.content_end, offset + n.end) + scan_marks(
                    s,
                    offset,
                    outer,
                    n.end,
                    n.end,
                )
            },
        }
    }
}

/// Pushing a styled range is applying its mark.
proof fn lemma_style_mark(v: SpansView, style: u8, start: int, end: int)
    ensures
        apply_mark(v, Mark::Style { style, start, end }) == apply_marks(
            v,
            style_mark(style, start, end),
        ),
{
    reveal_with_fuel(apply_marks, 2);
    if start < end && style != 0 {
        assert(style_mark(style, start, end).drop_last() =~= Seq::<Mark>::empty());
    }
}

/// Concealing a range is applying its mark.
proof fn lemma_conceal_mark(v: SpansView, start: int, end: int)
    ensures
        apply_mark(v, Mark::Conceal { start, end }) == apply_marks(v, conceal_mark(start, end)),
{
    reveal_with_fuel(apply_marks, 2);
    if start < end {
        assert(conceal_mark(start, end).drop_last() =~= Seq::<Mark>::empty());
    }
}

/// The markup that opens at `index` of `bytes`, if any.
fn find_nested(bytes: &[u8], index: usize) -> (r: Option<Nested>)
    requires
        index < bytes@.len(),
    ensures
        match r {
            Some(n) => nested_at(bytes@, index as int) == Some(nested_span(n)),
            None => nested_at(bytes@, index as int) is None,
        },
{
    let b = bytes[index];
    if b == 0x60 {
        match find_closing(bytes, index + 1, 0x60) {
            Some(e) => {
                proof {
                    lemma_first_index_of(bytes@, index + 1, 0x60);
                }
                Some(
                    Nested {
                        content: (index + 1)..e,
                        end: e + 1,
                        style: MarkdownCommentStyle(CODE),
                        parse_content: false,
                    },
                )
            },
            None => None,
        }
    } else if b == 0x2a || b == 0x5f {
        let found = marker_run(bytes, index, b);
        proof {
            lemma_run_length_bounds(bytes@, index as int, b);
        }
        let run = if found < 3 {
            found
        } else {
            3
        };
        if opens_emphasis(bytes, index, run, b) {
            match find_marker_run(bytes, index + run, b, run) {
                Some(e) => {
                    proof {
                        lemma_closing_run(
                            bytes@,
                            (index + run) as int,
                            (index + run) as int,
                            b,
                            run as int,
                        );
                    }
                    let style = if run == 1 {
                        MarkdownCommentStyle(ITALIC)
                    } else if run == 2 {
                        MarkdownCommentStyle(BOLD)
                    } else {
                        MarkdownCommentStyle(BOLD).with(MarkdownCommentStyle(ITALIC))
                    };
                    Some(
                        Nested {
                            content: (index + run)..e,
                            end: e + run,
                            style,
                            parse_content: true,
                        },
                    )
                },
                None => None,
            }
        } else {
            None
        }
    } else if b == 0x5b {
        match find_closing(bytes, index + 1, 0x5d) {
            Some(text_end) => {
                proof {
                    lemma_first_index_of(bytes@, index + 1, 0x5d);
                }
                if text_end + 1 < bytes.len() && bytes[text_end + 1] == 0x28 {
                    match find_closing(bytes, text_end + 2, 0x29) {
                        Some(url_end) => {
                            proof {
                                lemma_first_index_of(bytes@, text_end + 2, 0x29);
                            }
                            Some(
                                Nested {
                                    content: (index + 1)..text_end,
                                    end: url_end + 1,
                                    style: MarkdownCommentStyle(LINK),
                                    parse_content: true,
                                },
                            )
                        },
                        None => None,
                    }
                } else {
                    None
                }
            },
            None => None,
        }
    } else {
        None
    }
}

/// Applies the inline Markdown of the bytes of a text, whose first byte sits at `offset` in the
/// buffer.
///
/// `outer` is the markup that the markers around this text already gave it, so nested markup adds
/// to it rather than replacing it.
pub fn parse_inline_markdown_bytes(
    bytes: &[u8],
    offset: usize,
    outer: MarkdownCommentStyle,
    spans: &mut MarkdownSpans,
)
    requires
        offset + bytes@.len() <= usize::MAX,
    ensures
        final(spans)@ == apply_marks(old(spans)@, inline_marks(bytes@, offset as int, outer.0)),
    decreases bytes@.len(),
{
    if let Some(level) = heading_level(bytes) {
        let ghost v0 = spans@;
        spans.conceal(offset..offset + level + 1);
        let rest = slice_subrange(bytes, level + 1, bytes.len());
        let style = outer.with(MarkdownCommentStyle(HEADING));
        parse_inline_markdown_bytes(rest, offset + level + 1, style, spans);
        proof {
            lemma_conceal_mark(v0, offset as int, offset + level + 1);
            lemma_apply_marks_concat(
                v0,
                conceal_mark(offset as int, offset + level + 1),
                inline_marks(rest@, offset + level + 1, style.0),
            );
        }
        return;
    }
    let mut index: usize = 0;
    let mut plain_start: usize = 0;
    while index < bytes.len()
        invariant
            plain_start <= index <= bytes@.len(),
            offset + bytes@.len() <= usize::MAX,
            heading_of(bytes@) is None,
            apply_marks(
                spans@,
                scan_marks(bytes@, offset as int, outer.0, index as int, plain_start as int),
            ) == apply_marks(old(spans)@, inline_marks(bytes@, offset as int, outer.0)),
        decreases bytes@.len() - index,
    {
        match find_nested(bytes, index) {
            None => {
                index = index + 1;
            },
            Some(nested) => {
                proof {
                    lemma_nested_bounds(bytes@, index as int);
                }
                let ghost n = nested_span(nested);
                let ghost v0 = spans@;
                let ghost a = style_mark(outer.0, offset + plain_start, offset + index);
                let ghost b = conceal_mark(offset + index, offset + n.content_start);
                let ghost c = if n.parse_content {
                    inline_marks(
                        bytes@.subrange(n.content_start, n.content_end),
                        offset + n.content_start,
                        outer.0 | n.style,
                    )
                } else {
                    style_mark(outer.0 | n.style, offset + n.content_start, offset + n.content_end)
                };
                let ghost d = conceal_mark(offset + n.content_end, offset + n.end);
                let ghost rest = scan_marks(bytes@, offset as int, outer.0, n.end, n.end);
                assert(scan_marks(bytes@, offset as int, outer.0, index as int, plain_start as int)
                    == a + b + c + d + rest);

                spans.push_style(outer, (offset + plain_start)..(offset + index));
                proof {
                    lemma_style_mark(v0, outer.0, offset + plain_start, offset + index);
                }
                let ghost v1 = spans@;
                spans.conceal((offset + index)..(offset + nested.content.start));
                proof {
                    lemma_conceal_mark(v1, offset + index, offset + n.content_start);
                }
                let ghost v2 = spans@;
                let style = outer.with(nested.style);
                if nested.parse_content {
                    let content = slice_subrange(bytes, nested.content.start, nested.content.end);
                    parse_inline_markdown_bytes(
                        content,
                        offset + nested.content.start,
                        style,
                        spans,
                    );
                } else {
                    spans.push_style(
                        style,
                        (offset + nested.content.start)..(offset + nested.content.end),
                    );
                    proof {
                        lemma_style_mark(
                            v2,
                            style.0,
                            offset + n.content_start,
                            offset + n.content_end,
                        );
                    }
                }
                let ghost v3 = spans@;
                spans.conceal((offset + nested.content.end)..(offset + nested.end));
                proof {
                    lemma_conceal_mark(v3, offset + n.content_end, offset + n.end);
                    lemma_apply_marks_concat(v0, a, b);
                    lemma_apply_marks_concat(v0, a + b, c);
                    lemma_apply_marks_concat(v0, a + b + c, d);
                    lemma_apply_marks_concat(v0, a + b + c + d, rest);
                }
                index = nested.end;
                plain_start = index;
            },
        }
    }
    let ghost v0 = spans@;
    spans.push_style(outer, (offset + plain_start)..(offset + bytes.len()));
    proof {
        lemma_style_mark(v0, outer.0, offset + plain_start, offset + bytes@.len());
    }
}

/// Applies the inline Markdown of `text`, whose first byte sits at `offset` in the buffer.
///
/// `outer` is the markup that the markers around this text already gave it, so nested markup adds
/// to it rather than replacing it.
pub fn parse_inline_markdown(
    text: &str,
    offset: usize,
    outer: MarkdownCommentStyle,
    spans: &mut MarkdownSpans,
)
    requires
        offset + text.spec_bytes().len() <= usize::MAX,
    ensures
        final(spans)@ == apply_marks(
            old(spans)@,
            inline_marks(text.spec_bytes(), offset as int, outer.0),
        ),
{
    parse_inline_markdown_bytes(text.as_bytes(), offset, outer, spans);
}

/// Where the range of a mark starts.
pub open spec fn mark_start(m: Mark) -> int {
    match m {
        Mark::Style { start, .. } => start,
        Mark::Conceal { start, .. } => start,
    }
}

/// Where the range of a mark ends.
pub open spec fn mark_end(m: Mark) -> int {
    match m {
        Mark::Style { end, .. } => end,
        Mark::Conceal { end, .. } => end,
    }
}

/// The marks have ranges that are not empty, lie between `lo` and `hi`, come in the order of the
/// buffer, and do not overlap.
pub open spec fn marks_in_order(ms: Seq<Mark>, lo: int, hi: int) -> bool {
    &&& forall|i: int|
        0 <= i < ms.len() ==> lo <= mark_start(#[trigger] ms[i]) < mark_end(ms[i]) <= hi
    &&& forall|i: int, j: int|
        0 <= i < j < ms.len() ==> mark_end(#[trigger] ms[i]) <= mark_start(#[trigger] ms[j])
}

/// The marks cover the range from `lo` to `hi` exactly: they come in order, each one ends where
/// the next starts, the first starts at `lo` and the last ends at `hi`.
pub open spec fn marks_tile(ms: Seq<Mark>, lo: int, hi: int) -> bool {
    &&& marks_in_order(ms, lo, hi)
    &&& ms.len() == 0 ==> lo == hi
    &&& ms.len() > 0 ==> mark_start(ms[0]) == lo && mark_end(ms[ms.len() - 1]) == hi
    &&& forall|i: int| 0 <= i < ms.len() - 1 ==> mark_end(#[trigger] ms[i]) == mark_start(ms[i + 1])
}

/// Every styled mark carries all the markup of `outer`.
pub open spec fn marks_keep(ms: Seq<Mark>, outer: u8) -> bool {
    forall|i: int|
        0 <= i < ms.len() ==> (#[trigger] ms[i] matches Mark::Style { style, .. } ==> has_bits(
            style,
            outer,
        ))
}

/// Marks in order up to `mid`, then marks in order from `mid`, are in order together.
pub proof fn lemma_in_order_concat(a: Seq<Mark>, b: Seq<Mark>, lo: int, mid: int, hi: int)
    requires
        marks_in_order(a, lo, mid),
        marks_in_order(b, mid, hi),
        lo <= mid <= hi,
    ensures
        marks_in_order(a + b, lo, hi),
{
    let c = a + b;
    assert forall|i: int| 0 <= i < c.len() implies lo <= mark_start(#[trigger] c[i]) < mark_end(
        c[i],
    ) <= hi by {
        if i < a.len() {
            assert(c[i] == a[i]);
        } else {
            assert(c[i] == b[i - a.len()]);
        }
    }
    assert forall|i: int, j: int| 0 <= i < j < c.len() implies mark_end(#[trigger] c[i])
        <= mark_start(#[trigger] c[j]) by {
        if j < a.len() {
            assert(c[i] == a[i] && c[j] == a[j]);
        } else if i >= a.len() {
            assert(c[i] == b[i - a.len()] && c[j] == b[j - a.len()]);
        } else {
            assert(c[i] == a[i] && c[j] == b[j - a.len()]);
        }
    }
}

proof fn lemma_tile_concat(a: Seq<Mark>, b: Seq<Mark>, lo: int, mid: int, hi: int)
    requires
        marks_tile(a, lo, mid),
        marks_tile(b, mid, hi),
        lo <= mid <= hi,
    ensures
        marks_tile(a + b, lo, hi),
{
    lemma_in_order_concat(a, b, lo, mid, hi);
    let c = a + b;
    assert forall|i: int| 0 <= i < c.len() - 1 implies mark_end(#[trigger] c[i]) == mark_start(
        c[i + 1],
    ) by {
        if i + 1 < a.len() {
            assert(c[i] == a[i] && c[i + 1] == a[i + 1]);
        } else if i >= a.len() {
            assert(c[i] == b[i - a.len()] && c[i + 1] == b[i + 1 - a.len()]);
        } else {
            assert(c[i] == a[i] && c[i + 1] == b[0]);
        }
    }
    if c.len() > 0 {
        if a.len() > 0 {
            assert(c[0] == a[0]);
        } else {
            assert(c[0] == b[0]);
        }
        if b.len() > 0 {
            assert(c[c.len() - 1] == b[b.len() - 1]);
        } else {
            assert(c[c.len() - 1] == a[a.len() - 1]);
        }
    }
}

/// Marks that each carry `outer` still do together.
pub proof fn lemma_keep_concat(a: Seq<Mark>, b: Seq<Mark>, outer: u8)
    requires
        marks_keep(a, outer),
        marks_keep(b, outer),
    ensures
        marks_keep(a + b, outer),
{
    let c = a + b;
    assert forall|i: int| 0 <= i < c.len() implies (#[trigger] c[i] matches Mark::Style {
        style,
        ..
    } ==> has_bits(style, outer)) by {
        if i < a.len() {
            assert(c[i] == a[i]);
        } else {
            assert(c[i] == b[i - a.len()]);
        }
    }
}

/// What a single styled range contributes: in order, covering its range when it carries markup,
/// and keeping its own markup.
proof fn lemma_style_mark_shape(style: u8, start: int, end: int, outer: u8)
    requires
        start <= end,
        has_bits(style, outer),
    ensures
        marks_in_order(style_mark(style, start, end), start, end),
        style != 0 ==> marks_tile(style_mark(style, start, end), start, end),
        marks_keep(style_mark(style, start, end), outer),
{
}

/// What a concealed range contributes: it covers its range, and styles nothing.
proof fn lemma_conceal_mark_shape(start: int, end: int, outer: u8)
    requires
        start <= end,
    ensures
        marks_tile(conceal_mark(start, end), start, end),
        marks_keep(conceal_mark(start, end), outer),
{
}

proof fn lemma_keep_weaken(ms: Seq<Mark>, outer: u8, extra: u8)
    requires
        marks_keep(ms, outer | extra),
    ensures
        marks_keep(ms, outer),
{
    assert forall|i: int| 0 <= i < ms.len() implies (#[trigger] ms[i] matches Mark::Style {
        style,
        ..
    } ==> has_bits(style, outer)) by {
        if let Mark::Style { style, .. } = ms[i] {
            lemma_has_bits_weaken(style, outer, extra);
        }
    }
}

/// The shape of the marks of a text: see `lemma_marks_in_order`, `lemma_marks_tile` and
/// `lemma_marks_keep_outer`.
proof fn lemma_inline_shape(s: Seq<u8>, offset: int, outer: u8)
    ensures
        marks_in_order(inline_marks(s, offset, outer), offset, offset + s.len()),
        marks_keep(inline_marks(s, offset, outer), outer),
        outer != 0 ==> marks_tile(inline_marks(s, offset, outer), offset, offset + s.len()),
    decreases s.len(), s.len() + 1,
{
    match heading_of(s) {
        Some(level) => {
            let rest = s.subrange(level + 1, s.len() as int);
            let inner = outer | HEADING;
            lemma_inline_shape(rest, offset + level + 1, inner);
            lemma_keep_weaken(inline_marks(rest, offset + level + 1, inner), outer, HEADING);
            let head = conceal_mark(offset, offset + level + 1);
            let tail = inline_marks(rest, offset + level + 1, inner);
            lemma_conceal_mark_shape(offset, offset + level + 1, outer);
            lemma_in_order_concat(head, tail, offset, offset + level + 1, offset + s.len());
            lemma_keep_concat(head, tail, outer);
            if outer != 0 {
                lemma_with_not_empty(outer, HEADING);
                lemma_tile_concat(head, tail, offset, offset + level + 1, offset + s.len());
            }
        },
        None => {
            lemma_scan_shape(s, offset, outer, 0, 0);
        },
    }
}

/// The shape of the marks of a text from `index` on, with the plain text from `plain`.
proof fn lemma_scan_shape(s: Seq<u8>, offset: int, outer: u8, index: int, plain: int)
    requires
        0 <= plain <= index <= s.len(),
    ensures
        marks_in_order(scan_marks(s, offset, outer, index, plain), offset + plain, offset + s.len()),
        marks_keep(scan_marks(s, offset, outer, index, plain), outer),
        outer != 0 ==> marks_tile(
            scan_marks(s, offset, outer, index, plain),
            offset + plain,
            offset + s.len(),
        ),
    decreases s.len(), s.len() - index,
{
    lemma_has_bits_refl(outer);
    if index >= s.len() {
        lemma_style_mark_shape(outer, offset + plain, offset + s.len(), outer);
    } else {
        match nested_at(s, index) {
            None => {
                lemma_scan_shape(s, offset, outer, index + 1, plain);
            },
            Some(n) => {
                lemma_nested_bounds(s, index);
                let lo = offset + plain;
                let p1 = offset + index;
                let p2 = offset + n.content_start;
                let p3 = offset + n.content_end;
                let p4 = offset + n.end;
                let hi = offset + s.len();
                let inner = outer | n.style;
                lemma_with_keeps_both(outer, n.style);
                let a = style_mark(outer, lo, p1);
                let b = conceal_mark(p1, p2);
                let c = if n.parse_content {
                    inline_marks(s.subrange(n.content_start, n.content_end), p2, inner)
                } else {
                    style_mark(inner, p2, p3)
                };
                let d = conceal_mark(p3, p4);
                let r = scan_marks(s, offset, outer, n.end, n.end);
                lemma_style_mark_shape(outer, lo, p1, outer);
                lemma_conceal_mark_shape(p1, p2, outer);
                if n.parse_content {
                    lemma_inline_shape(s.subrange(n.content_start, n.content_end), p2, inner);
                    lemma_keep_weaken(c, outer, n.style);
                } else {
                    lemma_style_mark_shape(inner, p2, p3, outer);
                }
                lemma_conceal_mark_shape(p3, p4, outer);
                lemma_scan_shape(s, offset, outer, n.end, n.end);
                assert(scan_marks(s, offset, outer, index, plain) == a + b + c + d + r);
                lemma_in_order_concat(a, b, lo, p1, p2);
                lemma_in_order_concat(a + b, c, lo, p2, p3);
                lemma_in_order_concat(a + b + c, d, lo, p3, p4);
                lemma_in_order_concat(a + b + c + d, r, lo, p4, hi);
                lemma_keep_concat(a, b, outer);
                lemma_keep_concat(a + b, c, outer);
                lemma_keep_concat(a + b + c, d, outer);
                lemma_keep_concat(a + b + c + d, r, outer);
                if outer != 0 {
                    lemma_with_not_empty(outer, n.style);
                    lemma_tile_concat(a, b, lo, p1, p2);
                    lemma_tile_concat(a + b, c, lo, p2, p3);
                    lemma_tile_concat(a + b + c, d, lo, p3, p4);
                    lemma_tile_concat(a + b + c + d, r, lo, p4, hi);
                }
            },
        }
    }
}

/// The marks of a text never reach outside it, nor overlap, and come in the order of the buffer:
/// the text keeps its position, and no byte is both concealed and styled, or styled twice.
pub proof fn lemma_marks_in_order(s: Seq<u8>, offset: int, outer: u8)
    ensures
        marks_in_order(inline_marks(s, offset, outer), offset, offset + s.len()),
{
    lemma_inline_shape(s, offset, outer);
}

/// Under markup, the marks of a text cover it exactly: each byte is either concealed or styled,
/// once. The text between markers keeps the markup of the markers around it.
pub proof fn lemma_marks_tile(s: Seq<u8>, offset: int, outer: u8)
    requires
        outer != 0,
    ensures
        marks_tile(inline_marks(s, offset, outer), offset, offset + s.len()),
{
    lemma_inline_shape(s, offset, outer);
}

/// Markup nests: every styled range of a text carries the markup that the markers around the
/// text gave it, so nested markup adds to it rather than replacing it.
pub proof fn lemma_marks_keep_outer(s: Seq<u8>, offset: int, outer: u8)
    ensures
        marks_keep(inline_marks(s, offset, outer), outer),
{
    lemma_inline_shape(s, offset, outer);
}

/// Whether a byte can open markup: a backtick, `*`, `_` or `[`.
pub open spec fn is_marker_byte(b: u8) -> bool {
    b == 0x60 || b == 0x2a || b == 0x5f || b == 0x5b
}

proof fn lemma_scan_without_markers(s: Seq<u8>, offset: int, outer: u8, index: int)
    requires
        0 <= index <= s.len(),
        forall|i: int| 0 <= i < s.len() ==> !is_marker_byte(#[trigger] s[i]),
    ensures
        scan_marks(s, offset, outer, index, 0) == style_mark(outer, offset, offset + s.len()),
    decreases s.len() - index,
{
    if index < s.len() {
        assert(!is_marker_byte(s[index]));
        lemma_scan_without_markers(s, offset, outer, index + 1);
    }
}

/// Text without any byte that opens markup, and that is no heading, is left as it is: it all
/// gets the markup around it, and nothing is concealed.
pub proof fn lemma_plain_text_unchanged(s: Seq<u8>, offset: int, outer: u8)
    requires
        heading_of(s) is None,
        forall|i: int| 0 <= i < s.len() ==> !is_marker_byte(#[trigger] s[i]),
    ensures
        inline_marks(s, offset, outer) == style_mark(outer, offset, offset + s.len()),
{
    lemma_scan_without_markers(s, offset, outer, 0);
}

/// Whether offset `p` of `s` sits next to a one-byte (ASCII) character, or at an end of `s`:
/// such an offset never falls inside the encoding of a character.
pub open spec fn next_to_ascii(s: Seq<u8>, p: int) -> bool {
    ||| p == 0
    ||| p == s.len()
    ||| (0 <= p < s.len() && s[p] < 0x80)
    ||| (0 < p <= s.len() && s[p - 1] < 0x80)
}

/// The markers around markup are single-byte characters: the opening marker, the byte right
/// before the content, the byte right after it, and the last byte of the closing marker.
proof fn lemma_nested_ascii(s: Seq<u8>, index: int)
    requires
        0 <= index < s.len(),
    ensures
        nested_at(s, index) matches Some(n) ==> {
            &&& s[index] < 0x80
            &&& s[n.content_start - 1] < 0x80
            &&& s[n.content_end] < 0x80
            &&& s[n.end - 1] < 0x80
        },
{
    lemma_nested_bounds(s, index);
    let b = s[index];
    if b == 0x60 {
        lemma_first_index_of(s, index + 1, 0x60);
    } else if b == 0x2a || b == 0x5f {
        lemma_run_length_bounds(s, index, b);
        let found = run_length(s, index, b) as int;
        let run = if found < 3 {
            found
        } else {
            3
        };
        lemma_closing_run(s, index + run, index + run, b, run);
        if let Some(e) = closing_run(s, index + run, index + run, b, run) {
            lemma_run_length_bounds(s, e, b);
        }
    } else if b == 0x5b {
        lemma_first_index_of(s, index + 1, 0x5d);
        if let Some(text_end) = first_index_of(s, index + 1, 0x5d) {
            lemma_first_index_of(s, text_end + 2, 0x29);
        }
    }
}

/// An offset of a part of `s` that sits next to a one-byte character sits next to one in `s`,
/// when single-byte characters bound the part.
proof fn lemma_next_to_ascii_sub(s: Seq<u8>, from: int, to: int, p: int)
    requires
        1 <= from <= to <= s.len(),
        s[from - 1] < 0x80,
        to == s.len() || s[to] < 0x80,
        next_to_ascii(s.subrange(from, to), p),
    ensures
        next_to_ascii(s, from + p),
{
    let sub = s.subrange(from, to);
    if 0 <= p < sub.len() {
        assert(sub[p] == s[from + p]);
    }
    if 0 < p <= sub.len() {
        assert(sub[p - 1] == s[from + p - 1]);
    }
}

/// Every mark of a text starts and ends next to a one-byte character of the text, or at one of
/// its ends.
pub open spec fn marks_next_to_ascii(ms: Seq<Mark>, s: Seq<u8>, offset: int) -> bool {
    forall|j: int|
        0 <= j < ms.len() ==> next_to_ascii(s, mark_start(#[trigger] ms[j]) - offset)
            && next_to_ascii(s, mark_end(ms[j]) - offset)
}

proof fn lemma_next_to_ascii_concat(a: Seq<Mark>, b: Seq<Mark>, s: Seq<u8>, offset: int)
    requires
        marks_next_to_ascii(a, s, offset),
        marks_next_to_ascii(b, s, offset),
    ensures
        marks_next_to_ascii(a + b, s, offset),
{
    let c = a + b;
    assert forall|j: int| 0 <= j < c.len() implies next_to_ascii(
        s,
        mark_start(#[trigger] c[j]) - offset,
    ) && next_to_ascii(s, mark_end(c[j]) - offset) by {
        if j < a.len() {
            assert(c[j] == a[j]);
        } else {
            assert(c[j] == b[j - a.len()]);
        }
    }
}

/// The marks of a part of `s`, bounded by single-byte characters, sit next to one-byte
/// characters of `s`.
proof fn lemma_next_to_ascii_lift(ms: Seq<Mark>, s: Seq<u8>, offset: int, from: int, to: int)
    requires
        1 <= from <= to <= s.len(),
        s[from - 1] < 0x80,
        to == s.len() || s[to] < 0x80,
        marks_next_to_ascii(ms, s.subrange(from, to), offset + from),
    ensures
        marks_next_to_ascii(ms, s, offset),
{
    assert forall|j: int| 0 <= j < ms.len() implies next_to_ascii(
        s,
        mark_start(#[trigger] ms[j]) - offset,
    ) && next_to_ascii(s, mark_end(ms[j]) - offset) by {
        lemma_next_to_ascii_sub(s, from, to, mark_start(ms[j]) - (offset + from));
        lemma_next_to_ascii_sub(s, from, to, mark_end(ms[j]) - (offset + from));
    }
}

/// Every mark of a text starts and ends next to a one-byte character of it, or at an end.
pub proof fn lemma_inline_next_to_ascii(s: Seq<u8>, offset: int, outer: u8)
    ensures
        marks_next_to_ascii(inline_marks(s, offset, outer), s, offset),
    decreases s.len(), s.len() + 1,
{
    match heading_of(s) {
        Some(level) => {
            let rest = s.subrange(level + 1, s.len() as int);
            lemma_inline_next_to_ascii(rest, offset + level + 1, outer | HEADING);
            lemma_next_to_ascii_lift(
                inline_marks(rest, offset + level + 1, outer | HEADING),
                s,
                offset,
                level + 1,
                s.len() as int,
            );
            lemma_next_to_ascii_concat(
                conceal_mark(offset, offset + level + 1),
                inline_marks(rest, offset + level + 1, outer | HEADING),
                s,
                offset,
            );
        },
        None => {
            lemma_scan_next_to_ascii(s, offset, outer, 0, 0);
        },
    }
}

proof fn lemma_scan_next_to_ascii(s: Seq<u8>, offset: int, outer: u8, index: int, plain: int)
    requires
        0 <= plain <= index <= s.len(),
        next_to_ascii(s, plain),
    ensures
        marks_next_to_ascii(scan_marks(s, offset, outer, index, plain), s, offset),
    decreases s.len(), s.len() - index,
{
    if index >= s.len() {
    } else {
        match nested_at(s, index) {
            None => {
                lemma_scan_next_to_ascii(s, offset, outer, index + 1, plain);
            },
            Some(n) => {
                lemma_nested_bounds(s, index);
                lemma_nested_ascii(s, index);
                let inner = outer | n.style;
                let a = style_mark(outer, offset + plain, offset + index);
                let b = conceal_mark(offset + index, offset + n.content_start);
                let c = if n.parse_content {
                    inline_marks(s.subrange(n.content_start, n.content_end), offset + n.content_start, inner)
                } else {
                    style_mark(inner, offset + n.content_start, offset + n.content_end)
                };
                let d = conceal_mark(offset + n.content_end, offset + n.end);
                let r = scan_marks(s, offset, outer, n.end, n.end);
                if n.parse_content {
                    let sub = s.subrange(n.content_start, n.content_end);
                    lemma_inline_next_to_ascii(sub, offset + n.content_start, inner);
                    lemma_next_to_ascii_lift(c, s, offset, n.content_start, n.content_end);
                }
                lemma_scan_next_to_ascii(s, offset, outer, n.end, n.end);
                assert(scan_marks(s, offset, outer, index, plain) == a + b + c + d + r);
                lemma_next_to_ascii_concat(a, b, s, offset);
                lemma_next_to_ascii_concat(a + b, c, s, offset);
                lemma_next_to_ascii_concat(a + b + c, d, s, offset);
                lemma_next_to_ascii_concat(a + b + c + d, r, s, offset);
            },
        }
    }
}

/// Whether offset `p` of the bytes `s` is a character boundary, as `str::is_char_boundary` says:
/// an end of `s`, or an offset whose byte is no UTF-8 continuation byte (`0b10xx_xxxx`).
pub open spec fn is_char_start(s: Seq<u8>, p: int) -> bool {
    p == 0 || p == s.len() || (0 <= p < s.len() && !(0x80 <= s[p] <= 0xbf))
}

/// In UTF-8, the byte after a one-byte character starts a character.
proof fn lemma_after_ascii(s: Seq<u8>, p: int)
    requires
        valid_utf8(s),
        0 < p < s.len(),
        s[p - 1] < 0x80,
    ensures
        !(0x80 <= s[p] <= 0xbf),
    decreases s.len(),
{
    let w = length_of_first_scalar(s);
    let rest = pop_first_scalar(s);
    assert(valid_first_scalar(s));
    assert(1 <= w <= s.len());
    assert(valid_utf8(rest));
    assert(rest.len() == s.len() - w);
    if p - 1 >= w {
        assert(rest[p - 1 - w] == s[p - 1]);
        assert(rest[p - w] == s[p]);
        lemma_after_ascii(rest, p - w);
    } else if p == w {
        assert(rest[0] == s[p]);
        assert(rest.len() > 0);
        reveal_with_fuel(valid_utf8, 2);
        assert(valid_first_scalar(rest));
    }
}

/// In UTF-8, an offset next to a one-byte character is a character boundary.
pub proof fn lemma_next_to_ascii_is_char_start(s: Seq<u8>, p: int)
    requires
        valid_utf8(s),
        next_to_ascii(s, p),
    ensures
        is_char_start(s, p),
{
    if 0 < p < s.len() && !(s[p] < 0x80) {
        lemma_after_ascii(s, p);
    }
}

/// A heading of one to six levels conceals its `#` and the space after them, and its text is
/// parsed with the heading markup added to the markup around it.
pub proof fn lemma_heading_law(n: int, t: Seq<u8>, offset: int, outer: u8)
    requires
        1 <= n <= 6,
    ensures
        inline_marks(Seq::new(n as nat, |i: int| 0x23u8) + seq![0x20u8] + t, offset, outer) == seq![
            Mark::Conceal { start: offset, end: offset + n + 1 },
        ] + inline_marks(t, offset + n + 1, outer | HEADING),
{
    let s = Seq::new(n as nat, |i: int| 0x23u8) + seq![0x20u8] + t;
    lemma_heading_level_law(n, t);
    assert(s.subrange(n + 1, s.len() as int) =~= t);
    assert(conceal_mark(offset, offset + n + 1) =~= seq![
        Mark::Conceal { start: offset, end: offset + n + 1 },
    ]);
}

/// A code span holds no markup of its own: a text made of a backtick, content without
/// backticks, and a backtick conceals exactly the two backticks and styles the whole content as
/// one range with the code markup added, whatever bytes (`*`, `_`, `[`, `#`) the content holds.
pub proof fn lemma_code_span_law(c: Seq<u8>, offset: int, outer: u8)
    requires
        c.len() >= 1,
        forall|i: int| 0 <= i < c.len() ==> c[i] != 0x60,
    ensures
        inline_marks(seq![0x60u8] + c + seq![0x60u8], offset, outer) == seq![
            Mark::Conceal { start: offset, end: offset + 1 },
            Mark::Style { style: outer | CODE, start: offset + 1, end: offset + 1 + c.len() },
            Mark::Conceal { start: offset + 1 + c.len(), end: offset + 2 + c.len() },
        ],
{
    let s = seq![0x60u8] + c + seq![0x60u8];
    let n = c.len() as int;
    assert(s.len() == n + 2);
    assert(s[0] == 0x60);
    assert(s[n + 1] == 0x60);
    assert forall|i: int| 1 <= i < n + 1 implies s[i] != 0x60 by {
        assert(s[i] == c[i - 1]);
    }
    lemma_run_length_exact(s, 0, 0, 0x23);
    assert(heading_of(s) is None);
    lemma_first_index_of(s, 1, 0x60);
    assert(first_index_of(s, 1, 0x60) == Some(n + 1));
    assert(outer | CODE != 0) by (bit_vector);
    let ns = nested_at(s, 0);
    assert(ns == Some(
        NestedSpan {
            content_start: 1,
            content_end: n + 1,
            end: n + 2,
            style: CODE,
            parse_content: false,
        },
    ));
    assert(scan_marks(s, offset, outer, n + 2, n + 2) =~= Seq::<Mark>::empty());
    assert(style_mark(outer, offset, offset) =~= Seq::<Mark>::empty());
    assert(inline_marks(s, offset, outer) == scan_marks(s, offset, outer, 0, 0));
    assert(scan_marks(s, offset, outer, 0, 0) =~= seq![
        Mark::Conceal { start: offset, end: offset + 1 },
        Mark::Style { style: outer | CODE, start: offset + 1, end: offset + 1 + n },
        Mark::Conceal { start: offset + 1 + n, end: offset + 2 + n },
    ]);
}

/// A stretch of bytes that are no marker is skipped by the search for a closing run.
proof fn lemma_closing_run_skips(s: Seq<u8>, index: int, from: int, marker: u8, count: int, e: int)
    requires
        0 <= index <= e < s.len(),
        forall|i: int| index <= i < e ==> s[i] != marker,
        closing_run(s, e, from, marker, count) == Some(e),
    ensures
        closing_run(s, index, from, marker, count) == Some(e),
    decreases e - index,
{
    if index < e {
        lemma_closing_run_skips(s, index + 1, from, marker, count, e);
    }
}

/// Emphasis depends only on the length of its opening run, not on the marker: with `*` as with
/// `_`, a run of one, two or three markers around content makes it italic, bold, or bold and
/// italic; both runs are concealed and the content is parsed with that markup added.
pub proof fn lemma_emphasis_law(marker: u8, k: int, c: Seq<u8>, offset: int, outer: u8)
    requires
        marker == 0x2a || marker == 0x5f,
        1 <= k <= 3,
        c.len() >= 1,
        forall|i: int| 0 <= i < c.len() ==> c[i] != marker,
        !is_ascii_space(c[0]),
        !is_ascii_space(c[c.len() - 1]),
    ensures
        inline_marks(
            Seq::new(k as nat, |i: int| marker) + c + Seq::new(k as nat, |i: int| marker),
            offset,
            outer,
        ) == seq![Mark::Conceal { start: offset, end: offset + k }] + inline_marks(
            c,
            offset + k,
            outer | (if k == 1 {
                ITALIC
            } else if k == 2 {
                BOLD
            } else {
                BOLD | ITALIC
            }),
        ) + seq![Mark::Conceal { start: offset + k + c.len(), end: offset + 2 * k + c.len() }],
{
    let s = Seq::new(k as nat, |i: int| marker) + c + Seq::new(k as nat, |i: int| marker);
    let n = c.len() as int;
    let e = k + n;
    assert(s.len() == 2 * k + n);
    assert forall|i: int| 0 <= i < k implies s[i] == marker by {}
    assert forall|i: int| e <= i < e + k implies s[i] == marker by {}
    assert forall|i: int| k <= i < e implies s[i] == c[i - k] by {}
    assert forall|i: int| k <= i < e implies s[i] != marker by {
        assert(s[i] == c[i - k]);
    }
    assert(s[k] == c[0]);
    assert(s[e - 1] == c[n - 1]);
    lemma_run_length_exact(s, 0, 0, 0x23);
    assert(heading_of(s) is None);
    lemma_run_length_exact(s, 0, k, marker);
    lemma_run_length_exact(s, e, k, marker);
    assert(can_open(s, 0, k, marker));
    assert(can_close(s, e, marker));
    assert(closing_run(s, e, k, marker, k) == Some(e));
    lemma_closing_run_skips(s, k, k, marker, k, e);
    let inner = outer | emphasis_bits(k);
    assert(nested_at(s, 0) == Some(
        NestedSpan {
            content_start: k,
            content_end: e,
            end: e + k,
            style: emphasis_bits(k),
            parse_content: true,
        },
    ));
    assert(s.subrange(k, e) =~= c);
    assert(scan_marks(s, offset, outer, e + k, e + k) =~= Seq::<Mark>::empty());
    assert(style_mark(outer, offset, offset) =~= Seq::<Mark>::empty());
    assert(inline_marks(s, offset, outer) == scan_marks(s, offset, outer, 0, 0));
    let mid = inline_marks(c, offset + k, inner);
    assert(scan_marks(s, offset, outer, 0, 0) =~= seq![
        Mark::Conceal { start: offset, end: offset + k },
    ] + mid + seq![Mark::Conceal { start: offset + e, end: offset + e + k }]);
}

/// A link `[text](url)`, with no `]` in its text and no `)` in its url, conceals the `[` and
/// the `](url)`, and its text is parsed with the link markup added.
pub proof fn lemma_link_law(a: Seq<u8>, u: Seq<u8>, offset: int, outer: u8)
    requires
        forall|i: int| 0 <= i < a.len() ==> a[i] != 0x5d,
        forall|i: int| 0 <= i < u.len() ==> u[i] != 0x29,
    ensures
        inline_marks(seq![0x5bu8] + a + seq![0x5du8, 0x28u8] + u + seq![0x29u8], offset, outer)
            == seq![Mark::Conceal { start: offset, end: offset + 1 }] + inline_marks(
            a,
            offset + 1,
            outer | LINK,
        ) + seq![
            Mark::Conceal { start: offset + 1 + a.len(), end: offset + a.len() + u.len() + 4 },
        ],
{
    let s = seq![0x5bu8] + a + seq![0x5du8, 0x28u8] + u + seq![0x29u8];
    let an = a.len() as int;
    let len = an + u.len() + 4;
    assert(s.len() == len);
    assert(s[0] == 0x5b);
    assert(s[an + 1] == 0x5d);
    assert(s[an + 2] == 0x28);
    assert(s[len - 1] == 0x29);
    assert forall|i: int| 1 <= i < an + 1 implies s[i] != 0x5d by {
        assert(s[i] == a[i - 1]);
    }
    assert forall|i: int| an + 3 <= i < len - 1 implies s[i] != 0x29 by {
        assert(s[i] == u[i - an - 3]);
    }
    lemma_run_length_exact(s, 0, 0, 0x23);
    assert(heading_of(s) is None);
    lemma_first_index_of(s, 1, 0x5d);
    assert(first_index_of(s, 1, 0x5d) == Some(an + 1));
    lemma_first_index_of(s, an + 3, 0x29);
    assert(first_index_of(s, an + 3, 0x29) == Some(len - 1));
    assert(nested_at(s, 0) == Some(
        NestedSpan {
            content_start: 1,
            content_end: an + 1,
            end: len,
            style: LINK,
            parse_content: true,
        },
    ));
    assert(s.subrange(1, an + 1) =~= a);
    assert(scan_marks(s, offset, outer, len, len) =~= Seq::<Mark>::empty());
    assert(style_mark(outer, offset, offset) =~= Seq::<Mark>::empty());
    assert(inline_marks(s, offset, outer) == scan_marks(s, offset, outer, 0, 0));
    let mid = inline_marks(a, offset + 1, outer | LINK);
    assert(scan_marks(s, offset, outer, 0, 0) =~= seq![
        Mark::Conceal { start: offset, end: offset + 1 },
    ] + mid + seq![Mark::Conceal { start: offset + 1 + an, end: offset + len }]);
}

/// A run of `*` or `_` followed by whitespace, or by the end of the text, opens nothing
/// (`a * b`); neither does an underscore right after a letter or a digit (`snake_case`).
pub proof fn lemma_emphasis_needs_word_start(s: Seq<u8>, index: int)
    requires
        0 <= index < s.len(),
        s[index] == 0x2a || s[index] == 0x5f,
        ({
            let found = run_length(s, index, s[index]) as int;
            let run = if found < 3 {
                found
            } else {
                3
            };
            ||| index + run >= s.len()
            ||| is_ascii_space(s[index + run])
        }) || (s[index] == 0x5f && index >= 1 && is_ascii_alnum(s[index - 1])),
    ensures
        nested_at(s, index) is None,
{
}

} // verus!
