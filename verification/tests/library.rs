use std::ops::Range;

use lib::buffer::{comment_block_at, is_comment_row, BufferRow};
use lib::comment::{comment_text_start, parse_comment_row};
use lib::editor::{Editor, RefreshContext};
use lib::inline::{parse_inline_markdown, parse_inline_markdown_bytes};
use lib::markers::{
    closes_emphasis, find_closing, find_marker_run, heading_level, marker_run, opens_emphasis,
};
use lib::spans::MarkdownSpans;
use lib::style::{
    HighlightAttributes, MarkdownCommentStyle, ThemeColor, BOLD, CODE, HEADING, ITALIC, LINK,
};

fn all_ranges(spans: &MarkdownSpans) -> Vec<(usize, usize, bool)> {
    let mut all: Vec<(usize, usize, bool)> = spans
        .styled()
        .iter()
        .flat_map(|(_, ranges)| ranges.iter().map(|r| (r.start, r.end, true)))
        .chain(spans.concealed().iter().map(|r| (r.start, r.end, false)))
        .collect();
    all.sort();
    all
}

#[test]
fn style_with_contains_and_is_empty() {
    let bold = MarkdownCommentStyle(BOLD);
    let italic = MarkdownCommentStyle(ITALIC);
    let both = bold.with(italic);
    assert_eq!(both, MarkdownCommentStyle(3));
    assert!(both.contains(bold));
    assert!(both.contains(italic));
    assert!(!bold.contains(italic));
    assert!(bold.contains(MarkdownCommentStyle::default()));
    assert!(MarkdownCommentStyle::default().is_empty());
    assert!(!both.is_empty());
}

#[test]
fn highlight_style_of_each_markup() {
    assert_eq!(
        MarkdownCommentStyle(BOLD).highlight_style(),
        HighlightAttributes {
            bold: true,
            italic: false,
            color: None,
            background: None,
            underline: false
        }
    );
    assert_eq!(
        MarkdownCommentStyle(HEADING).highlight_style(),
        HighlightAttributes {
            bold: true,
            italic: false,
            color: Some(ThemeColor::Text),
            background: None,
            underline: false
        }
    );
    assert_eq!(
        MarkdownCommentStyle(CODE | ITALIC).highlight_style(),
        HighlightAttributes {
            bold: false,
            italic: true,
            color: Some(ThemeColor::Text),
            background: Some(ThemeColor::ElementBackground),
            underline: false
        }
    );
    assert_eq!(
        MarkdownCommentStyle(LINK | CODE).highlight_style(),
        HighlightAttributes {
            bold: false,
            italic: false,
            color: Some(ThemeColor::LinkTextHover),
            background: Some(ThemeColor::ElementBackground),
            underline: true
        }
    );
    assert_eq!(
        MarkdownCommentStyle::default().highlight_style(),
        HighlightAttributes {
            bold: false,
            italic: false,
            color: None,
            background: None,
            underline: false
        }
    );
}

#[test]
fn marker_helpers() {
    let text = b"a **b** `c`";
    assert_eq!(find_closing(text, 0, b'`'), Some(8));
    assert_eq!(find_closing(text, 9, b'`'), Some(10));
    assert_eq!(find_closing(text, 11, b'`'), None);
    assert_eq!(find_closing(text, 40, b'a'), None);
    assert_eq!(marker_run(text, 2, b'*'), 2);
    assert_eq!(marker_run(text, 0, b'*'), 0);
    assert_eq!(marker_run(text, text.len(), b'*'), 0);
    assert!(opens_emphasis(text, 2, 2, b'*'));
    assert!(!opens_emphasis(text, 2, 0, b'*'));
    assert!(!opens_emphasis(b"a * b", 2, 1, b'*'));
    assert!(!opens_emphasis(b"a_b_", 1, 1, b'_'));
    assert!(closes_emphasis(text, 5, b'*'));
    assert!(!closes_emphasis(b"a *b * c", 5, b'*'));
    assert!(!closes_emphasis(b"_a_b", 2, b'_'));
    assert!(!closes_emphasis(text, 0, b'*'));
    assert_eq!(find_marker_run(text, 4, b'*', 2), Some(5));
    assert_eq!(find_marker_run(b"**a*b**", 2, b'*', 2), Some(5));
    assert_eq!(find_marker_run(b"**a*b*", 2, b'*', 2), None);
    assert_eq!(heading_level(b"## x"), Some(2));
    assert_eq!(heading_level(b"####### x"), None);
    assert_eq!(heading_level(b"#x"), None);
    assert_eq!(heading_level(b"#"), None);
}

#[test]
fn comment_text_start_with_unicode_indentation() {
    // An ideographic space is three bytes of indentation.
    assert_eq!(comment_text_start("\u{3000}// text"), Some(6));
    assert_eq!(comment_text_start("\t//!  text"), Some(6));
    assert_eq!(comment_text_start("// \u{a0}"), None, "only whitespace after the delimiter");
    assert_eq!(comment_text_start("//\u{a0}x"), None, "no plain space after the delimiter");
    assert_eq!(comment_text_start("# shell"), Some(2));
    assert_eq!(comment_text_start("*/ x"), Some(3));
    assert_eq!(comment_text_start("**bold**"), None);
    assert_eq!(comment_text_start(""), None);
}

#[test]
fn parse_comment_row_shifts_by_line_start() {
    let mut spans = MarkdownSpans::default();
    parse_comment_row("// a `b`", 100, &mut spans);
    assert_eq!(all_ranges(&spans), vec![(105, 106, false), (106, 107, true), (107, 108, false)]);

    let mut spans = MarkdownSpans::default();
    parse_comment_row("/**", 100, &mut spans);
    assert!(all_ranges(&spans).is_empty());
}

#[test]
fn marks_tile_the_text_under_markup() {
    let text = "plain **bold _both_** `code` [link](u) end";
    let mut spans = MarkdownSpans::default();
    parse_inline_markdown(text, 10, MarkdownCommentStyle(HEADING), &mut spans);
    let ranges = all_ranges(&spans);
    assert_eq!(ranges.first().unwrap().0, 10);
    assert_eq!(ranges.last().unwrap().1, 10 + text.len());
    for pair in ranges.windows(2) {
        assert_eq!(pair[0].1, pair[1].0);
    }
    for (style, _) in spans.styled() {
        assert!(style.contains(MarkdownCommentStyle(HEADING)));
    }
}

#[test]
fn marks_stay_in_order_without_markup() {
    let text = b"x **a** y _b_ z";
    let mut spans = MarkdownSpans::default();
    parse_inline_markdown_bytes(text, 3, MarkdownCommentStyle::default(), &mut spans);
    let ranges = all_ranges(&spans);
    assert_eq!(
        ranges,
        vec![
            (5, 7, false),
            (7, 8, true),
            (8, 10, false),
            (13, 14, false),
            (14, 15, true),
            (15, 16, false)
        ]
    );
}

#[test]
fn each_style_has_one_group() {
    let mut spans = MarkdownSpans::default();
    parse_inline_markdown("*a* **b** *c*", 0, MarkdownCommentStyle::default(), &mut spans);
    assert_eq!(spans.styled().len(), 2);
    assert_eq!(spans.styled()[0].0, MarkdownCommentStyle(ITALIC));
    assert_eq!(spans.styled()[0].1, vec![1..2, 11..12]);
    assert_eq!(spans.styled()[1].0, MarkdownCommentStyle(BOLD));
    assert_eq!(spans.styled()[1].1, vec![6..7]);

    let mut spans = MarkdownSpans::default();
    spans.push_style(MarkdownCommentStyle(BOLD), 3..3);
    spans.push_style(MarkdownCommentStyle::default(), 3..5);
    spans.conceal(4..4);
    assert!(spans.styled().is_empty());
    assert!(spans.concealed().is_empty());
    spans.conceal(4..6);
    assert_eq!(spans.concealed(), &vec![4..6]);
}

#[test]
fn comment_rows_and_blocks() {
    assert!(is_comment_row(0, 5, true));
    assert!(!is_comment_row(5, 5, true), "a row of indentation alone is no comment");
    assert!(!is_comment_row(0, 5, false));

    let row = |is_comment: bool, start: usize, text: &str| BufferRow {
        is_comment,
        start,
        text: text.to_string(),
    };
    let rows = vec![
        row(true, 0, "// a"),
        row(true, 5, "// b"),
        row(false, 10, "fn x() {}"),
        row(true, 20, "// c"),
    ];
    assert_eq!(comment_block_at(&rows, 0, 3), Some(0..2));
    assert_eq!(comment_block_at(&rows, 1, 3), Some(1..2));
    assert_eq!(comment_block_at(&rows, 2, 3), None);
    assert_eq!(comment_block_at(&rows, 3, 3), Some(3..4));
}

#[test]
fn editor_toggle_follows_then_overrides_the_setting() {
    let mut editor = Editor::new();
    assert!(editor.markdown_comments_enabled(true));
    assert!(!editor.markdown_comments_enabled(false));
    let rows: Vec<BufferRow> = Vec::new();
    let cursors: Vec<u32> = Vec::new();
    let cx = RefreshContext {
        setting: true,
        full_mode: true,
        pending_selection: false,
        singleton: true,
    };
    editor.toggle_markdown_comments(cx, &rows, &cursors);
    assert_eq!(editor.markdown_comments_toggle(), Some(false));
    assert!(!editor.markdown_comments_enabled(true));
    editor.toggle_markdown_comments(cx, &rows, &cursors);
    assert!(editor.markdown_comments_enabled(false));
    editor.set_markdown_comments_enabled(None);
    assert_eq!(editor.markdown_comments_toggle(), None);
    assert!(!editor.markdown_comments_enabled(false));
}

#[test]
fn editor_refresh_settles_and_clears_stale_styles() {
    let mut editor = Editor::new();
    let mut first = MarkdownSpans::default();
    parse_inline_markdown("*a* **b**", 0, MarkdownCommentStyle::default(), &mut first);
    let mut again = MarkdownSpans::default();
    parse_inline_markdown("*a* **b**", 0, MarkdownCommentStyle::default(), &mut again);

    assert_eq!(editor.draw_markdown_spans(first), Some(vec![]));
    assert_eq!(editor.draw_markdown_spans(again), None, "nothing is rebuilt");

    let mut next = MarkdownSpans::default();
    parse_inline_markdown("**b**", 0, MarkdownCommentStyle::default(), &mut next);
    assert_eq!(
        editor.draw_markdown_spans(next),
        Some(vec![MarkdownCommentStyle(ITALIC)]),
        "italic is drawn no more"
    );
    assert_eq!(editor.spans().styled().len(), 1);

    assert_eq!(
        editor.draw_markdown_spans(MarkdownSpans::default()),
        Some(vec![MarkdownCommentStyle(BOLD)])
    );
}


#[test]
fn plain_text_is_left_as_it_is() {
    let mut spans = MarkdownSpans::default();
    parse_inline_markdown("no markers here.", 7, MarkdownCommentStyle(LINK), &mut spans);
    assert_eq!(spans.styled().len(), 1);
    assert_eq!(spans.styled()[0].0, MarkdownCommentStyle(LINK));
    assert_eq!(spans.styled()[0].1, vec![7..23]);
    assert!(spans.concealed().is_empty());

    let mut spans = MarkdownSpans::default();
    parse_inline_markdown("no markers here.", 7, MarkdownCommentStyle::default(), &mut spans);
    assert!(spans.styled().is_empty());
    assert!(spans.concealed().is_empty());
}

#[test]
fn delimiters_are_never_marked() {
    for line in ["// **a**", "/// `b`", "  * _c_", "# [d](e)", "//! ## f"] {
        let start = comment_text_start(line).unwrap();
        let mut spans = MarkdownSpans::default();
        parse_comment_row(line, 0, &mut spans);
        for (first, _, _) in all_ranges(&spans) {
            assert!(first >= start, "{line:?}");
        }
        assert!(!all_ranges(&spans).is_empty(), "{line:?}");
    }
}

#[test]
fn ranges_fall_on_char_boundaries_and_never_overlap() {
    let text = "я **жир** и `код` [ссылка](u) ё";
    let mut spans = MarkdownSpans::default();
    spans.conceal(0..1);
    parse_inline_markdown(text, 0, MarkdownCommentStyle(HEADING), &mut spans);
    assert_eq!(spans.concealed()[0], 0..1, "what the spans held stays first");
    let mut added: Vec<Range<usize>> = spans.concealed()[1..].to_vec();
    for (style, ranges) in spans.styled() {
        assert!(style.contains(MarkdownCommentStyle(HEADING)));
        added.extend(ranges.iter().cloned());
    }
    added.sort_by_key(|r| r.start);
    assert_eq!(added.first().unwrap().start, 0);
    assert_eq!(added.last().unwrap().end, text.len());
    for pair in added.windows(2) {
        assert_eq!(pair[0].end, pair[1].start);
    }
    for r in &added {
        assert!(r.start < r.end);
        assert!(text.is_char_boundary(r.start) && text.is_char_boundary(r.end));
    }
}
