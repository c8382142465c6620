use lib::comment::comment_text_start;
use lib::inline::parse_inline_markdown;
use lib::spans::MarkdownSpans;
use lib::style::{MarkdownCommentStyle, BOLD, CODE, HEADING, ITALIC, LINK};

/// The styled ranges of a comment line as `(text, markup)`, in the order they appear, and the
/// concealed markers.
fn spans_of(text: &str) -> (Vec<(String, Vec<&'static str>)>, Vec<String>) {
    let mut spans = MarkdownSpans::default();
    let start = comment_text_start(text).unwrap_or(0);
    parse_inline_markdown(
        &text[start..],
        start,
        MarkdownCommentStyle::default(),
        &mut spans,
    );
    let mut styled = spans
        .styled()
        .iter()
        .flat_map(|(style, ranges)| {
            ranges.iter().map(move |range| {
                let names = [
                    (MarkdownCommentStyle(BOLD), "bold"),
                    (MarkdownCommentStyle(ITALIC), "italic"),
                    (MarkdownCommentStyle(CODE), "code"),
                    (MarkdownCommentStyle(LINK), "link"),
                    (MarkdownCommentStyle(HEADING), "heading"),
                ]
                .into_iter()
                .filter(|(flag, _)| style.contains(*flag))
                .map(|(_, name)| name)
                .collect::<Vec<_>>();
                (range.start, text[range.clone()].to_string(), names)
            })
        })
        .collect::<Vec<_>>();
    styled.sort_by_key(|(start, _, _)| *start);
    let concealed = spans
        .concealed()
        .iter()
        .map(|range| text[range.clone()].to_string())
        .collect();
    (
        styled
            .into_iter()
            .map(|(_, text, names)| (text, names))
            .collect(),
        concealed,
    )
}

#[test]
fn test_comment_text_start() {
    assert_eq!(comment_text_start("// text"), Some(3));
    assert_eq!(comment_text_start("  /// text"), Some(6));
    assert_eq!(comment_text_start(" * text"), Some(3));
    assert_eq!(comment_text_start("/** text"), Some(4));
    assert_eq!(
        comment_text_start("/**"),
        None,
        "a row with no text of its own"
    );
    assert_eq!(comment_text_start(" */"), None);
    assert_eq!(comment_text_start("plain text"), None);
}

#[test]
fn test_inline_markdown() {
    let (styled, concealed) = spans_of("// a **bold** word");
    assert_eq!(styled, [("bold".to_string(), vec!["bold"])]);
    assert_eq!(concealed, ["**", "**"]);

    let (styled, concealed) = spans_of("// an *italic* and `code` and ***both***");
    assert_eq!(
        styled,
        [
            ("italic".to_string(), vec!["italic"]),
            ("code".to_string(), vec!["code"]),
            ("both".to_string(), vec!["bold", "italic"]),
        ]
    );
    assert_eq!(concealed, ["*", "*", "`", "`", "***", "***"]);

    let (styled, concealed) = spans_of("// see [the docs](https://zed.dev)");
    assert_eq!(styled, [("the docs".to_string(), vec!["link"])]);
    assert_eq!(concealed, ["[", "](https://zed.dev)"]);

    let (styled, _) = spans_of("// ## A heading");
    assert_eq!(styled, [("A heading".to_string(), vec!["heading"])]);
}

#[test]
fn test_nested_markup_combines() {
    let (styled, concealed) = spans_of("// A **_`block instance`_** term");
    assert_eq!(
        styled,
        [("block instance".to_string(), vec!["bold", "italic", "code"])],
        "a code span keeps the emphasis of the markers around it"
    );
    assert_eq!(concealed, ["**", "_", "`", "`", "_", "**"]);

    let (styled, _) = spans_of("// **bold with _italic_ inside**");
    assert_eq!(
        styled,
        [
            ("bold with ".to_string(), vec!["bold"]),
            ("italic".to_string(), vec!["bold", "italic"]),
            (" inside".to_string(), vec!["bold"]),
        ],
        "the text around nested markers keeps the outer markup"
    );

    let (styled, _) = spans_of("// [a **bold** link](https://zed.dev)");
    assert_eq!(
        styled,
        [
            ("a ".to_string(), vec!["link"]),
            ("bold".to_string(), vec!["bold", "link"]),
            (" link".to_string(), vec!["link"]),
        ]
    );

    let (styled, _) = spans_of("// # A **bold** heading");
    assert_eq!(
        styled,
        [
            ("A ".to_string(), vec!["heading"]),
            ("bold".to_string(), vec!["bold", "heading"]),
            (" heading".to_string(), vec!["heading"]),
        ]
    );
}

#[test]
fn test_emphasis_boundaries() {
    let (styled, concealed) = spans_of("// a snake_case_name stays whole");
    assert!(styled.is_empty(), "underscores inside a word mark nothing");
    assert!(concealed.is_empty());

    let (styled, _) = spans_of("// _leading_ and trailing_ and _both_");
    assert_eq!(
        styled,
        [
            ("leading".to_string(), vec!["italic"]),
            ("both".to_string(), vec!["italic"]),
        ]
    );

    let (styled, _) = spans_of("// 2 * 3 * 4 is arithmetic");
    assert!(
        styled.is_empty(),
        "a marker followed by a space marks nothing"
    );

    let (styled, _) = spans_of("// `a * b` keeps its stars");
    assert_eq!(styled, [("a * b".to_string(), vec!["code"])]);
}

#[test]
fn test_unclosed_and_empty_markup() {
    for line in [
        "// **unclosed bold",
        "// `unclosed code",
        "// [unclosed link](",
        "// [text] (spaced)",
        "// a lone ` tick",
        "//",
        "// ####### too many hashes",
        "// #no space after hash",
    ] {
        let (styled, concealed) = spans_of(line);
        assert!(styled.is_empty(), "{line:?} should style nothing");
        assert!(concealed.is_empty(), "{line:?} should conceal nothing");
    }
}

#[test]
fn test_multibyte_text_keeps_offsets() {
    // The offsets are byte offsets into the buffer, so a multi-byte character before a marker
    // must not shift the span.
    let (styled, _) = spans_of("// длинный **жирный** текст");
    assert_eq!(styled, [("жирный".to_string(), vec!["bold"])]);
}

#[test]
fn test_heading_and_link_together() {
    let (styled, concealed) = spans_of("// # See [the docs](https://zed.dev) now");
    assert_eq!(
        styled,
        [
            ("See ".to_string(), vec!["heading"]),
            ("the docs".to_string(), vec!["link", "heading"]),
            (" now".to_string(), vec!["heading"]),
        ]
    );
    assert_eq!(concealed, ["# ", "[", "](https://zed.dev)"]);
}
