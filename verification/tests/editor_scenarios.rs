use std::ops::Range;

use lib::buffer::{markdown_comment_spans, BufferRow};
use lib::editor::{spans_to_draw, Editor, RefreshContext, MARKDOWN_COMMENTS_DEBOUNCE_MS};
use lib::spans::MarkdownSpans;

/// The rows of a buffer, each a comment row when it starts with `//`, `/*` or ` *` (what the
/// language scope says for these buffers).
fn rows_of(text: &str) -> Vec<BufferRow> {
    let mut start = 0;
    let mut rows = Vec::new();
    for line in text.split('\n') {
        let trimmed = line.trim_start();
        rows.push(BufferRow {
            is_comment: trimmed.starts_with("//")
                || trimmed.starts_with("/*")
                || trimmed.starts_with('*'),
            start,
            text: line.to_string(),
        });
        start += line.len() + 1;
    }
    rows
}

/// The rows that hold a cursor, marked `ˇ` in the text, and the text without the marks.
fn cursors_of(marked: &str) -> (String, Vec<u32>) {
    let mut cursor_rows = Vec::new();
    for (row, line) in marked.split('\n').enumerate() {
        if line.contains('ˇ') {
            cursor_rows.push(row as u32);
        }
    }
    (marked.replace('ˇ', ""), cursor_rows)
}

/// The spans of the buffer's comments, for cursors on the given rows.
fn spans_for(text: &str, cursor_rows: &Vec<u32>) -> MarkdownSpans {
    markdown_comment_spans(&rows_of(text), cursor_rows)
}

/// A full editor of a single buffer, with no selection in progress, under the given setting.
fn cx(setting: bool) -> RefreshContext {
    RefreshContext {
        setting,
        full_mode: true,
        pending_selection: false,
        singleton: true,
    }
}

/// The buffer as drawn: every concealed range taken out.
fn display(text: &str, spans: &MarkdownSpans) -> String {
    let mut concealed: Vec<Range<usize>> = spans.concealed().iter().cloned().collect();
    concealed.sort_by_key(|r| r.start);
    let mut out = String::new();
    let mut at = 0;
    for r in concealed {
        out.push_str(&text[at..r.start]);
        at = r.end;
    }
    out.push_str(&text[at..]);
    out
}

fn display_of(marked: &str) -> String {
    let (text, cursor_rows) = cursors_of(marked);
    display(&text, &spans_for(&text, &cursor_rows))
}

#[test]
fn test_markers_are_concealed_outside_the_comment_with_the_cursor() {
    assert_eq!(
        display_of("// A **bold** word and `code`.\nfn mainˇ() {}\n"),
        "// A bold word and code.\nfn main() {}\n",
        "the markers are concealed while the cursor is elsewhere"
    );
    let (text, _) = cursors_of("// A **bold** word and `code`.\nfn mainˇ() {}\n");
    assert_eq!(
        text, "// A **bold** word and `code`.\nfn main() {}\n",
        "the buffer keeps every character"
    );
}

#[test]
fn test_the_comment_with_the_cursor_shows_its_source() {
    assert_eq!(
        display_of("// A **bold** word.\n// Another **bold** word.\nfn mainˇ() {}\n"),
        "// A bold word.\n// Another bold word.\nfn main() {}\n"
    );
    assert_eq!(
        display_of("// A **boldˇ** word.\n// Another **bold** word.\nfn main() {}\n"),
        "// A **bold** word.\n// Another **bold** word.\nfn main() {}\n",
        "the comment block that holds the cursor stays as its source"
    );
    assert_eq!(
        display_of("// A **bold** word.\n\n// Another **boldˇ** word.\nfn main() {}\n"),
        "// A bold word.\n\n// Another **bold** word.\nfn main() {}\n"
    );
}

#[test]
fn test_moving_the_cursor_inside_one_comment_changes_nothing() {
    let mut editor = Editor::new();
    let (text, cursor_rows) = cursors_of("// A **boldˇ** word and `code`.\nfn main() {}\n");
    editor.refresh_markdown_comments(cx(true), &rows_of(&text), &cursor_rows);
    let source = display(&text, editor.spans());
    assert_eq!(source, text);
    for state in [
        "// ˇA **bold** word and `code`.\nfn main() {}\n",
        "// A **bold** word and `code`.ˇ\nfn main() {}\n",
    ] {
        let (text, cursor_rows) = cursors_of(state);
        assert_eq!(
            editor.refresh_markdown_comments(cx(true), &rows_of(&text), &cursor_rows),
            None,
            "the folds are not rebuilt, so the comment does not flicker"
        );
        assert_eq!(
            display(&text, editor.spans()),
            source,
            "the comment stays as its source while the cursor moves inside it"
        );
    }
}

#[test]
fn test_markers_are_folded_away_to_nothing() {
    let (text, cursor_rows) = cursors_of("// A **bold** word.\nfn mainˇ() {}\n");
    let spans = spans_for(&text, &cursor_rows);
    assert_eq!(spans.concealed().len(), 2, "one fold per marker");
    for range in spans.concealed() {
        assert_eq!(&text[range.clone()], "**");
    }
}

#[test]
fn test_code_outside_comments_is_untouched() {
    assert_eq!(
        display_of(
            "let product = a * b * c;\nlet text = \"**not bold**\";\n// But **this** is.\nfn mainˇ() {}\n"
        ),
        "let product = a * b * c;\nlet text = \"**not bold**\";\n// But this is.\nfn main() {}\n",
        "only comments are rendered"
    );
}

#[test]
fn test_doc_comment_rows_keep_their_delimiters() {
    assert_eq!(
        display_of(
            "/**\n * The **rules** of this file:\n * - A term is in `code`.\n */\nfn mainˇ() {}\n"
        ),
        "/**\n * The rules of this file:\n * - A term is in code.\n */\nfn main() {}\n",
        "the delimiters stay, only the markers of the text go"
    );
}

#[test]
fn test_toggle_action_and_setting() {
    let mut editor = Editor::new();
    let (text, cursor_rows) = cursors_of("// A **bold** word.\nfn mainˇ() {}\n");
    let rows = rows_of(&text);
    editor.refresh_markdown_comments(cx(true), &rows, &cursor_rows);
    assert_eq!(display(&text, editor.spans()), "// A bold word.\nfn main() {}\n");

    editor.toggle_markdown_comments(cx(true), &rows, &cursor_rows);
    assert_eq!(
        display(&text, editor.spans()),
        "// A **bold** word.\nfn main() {}\n",
        "the toggle turns the rendering off for this editor"
    );

    editor.toggle_markdown_comments(cx(true), &rows, &cursor_rows);
    assert_eq!(display(&text, editor.spans()), "// A bold word.\nfn main() {}\n");

    // The editor follows the setting again once its own toggle is cleared.
    editor.set_markdown_comments_enabled(None);
    editor.refresh_markdown_comments(cx(false), &rows, &cursor_rows);
    assert_eq!(
        display(&text, editor.spans()),
        "// A **bold** word.\nfn main() {}\n",
        "the setting is off, so the comment stays as its source"
    );
    assert!(editor.spans().concealed().is_empty());
}

#[test]
fn spans_to_draw_follow_the_enabled_flag() {
    let (text, cursor_rows) = cursors_of("// A **bold** word.\nfn mainˇ() {}\n");
    let rows = rows_of(&text);
    let off = spans_to_draw(false, true, &rows, &cursor_rows);
    assert!(off.styled().is_empty() && off.concealed().is_empty());
    let on = spans_to_draw(true, true, &rows, &cursor_rows);
    assert_eq!(on.concealed().len(), 2);
    let elsewhere = spans_to_draw(true, false, &rows, &cursor_rows);
    assert!(
        elsewhere.styled().is_empty() && elsewhere.concealed().is_empty(),
        "an editor of more than one buffer draws nothing"
    );
}

#[test]
fn test_editing_a_comment_keeps_the_buffer_correct() {
    // The cursor moves into the comment first, which shows the source, so an edit lands where
    // the user sees it.
    assert_eq!(
        display_of("// A **bold** wordˇ.\nfn main() {}\n"),
        "// A **bold** word.\nfn main() {}\n"
    );
    assert_eq!(
        display_of("// A **bold** word here.\nfn mainˇ() {}\n"),
        "// A bold word here.\nfn main() {}\n",
        "the edited comment renders again once the cursor leaves it"
    );
}

#[test]
fn buffer_spans_never_overlap_and_stay_in_comment_text() {
    let text = "// A **bold** word.\n// `code` and _it_.\nfn main() { a * b }\n// # Head [l](u)\n";
    let rows = rows_of(text);
    let spans = markdown_comment_spans(&rows, &vec![2]);
    let mut all: Vec<Range<usize>> = spans.concealed().clone();
    for (_, ranges) in spans.styled() {
        all.extend(ranges.iter().cloned());
    }
    all.sort_by_key(|r| r.start);
    for pair in all.windows(2) {
        assert!(pair[0].end <= pair[1].start);
    }
    for r in &all {
        let row = rows
            .iter()
            .find(|row| row.start <= r.start && r.end <= row.start + row.text.len())
            .unwrap();
        assert!(row.is_comment);
        assert!(r.start >= row.start + 3, "after the delimiter and its space");
    }
}

#[test]
fn refresh_waits_outside_a_full_editor_and_during_a_selection() {
    let (text, cursor_rows) = cursors_of("// A **bold** word.\nfn mainˇ() {}\n");
    let rows = rows_of(&text);
    let mut editor = Editor::new();
    let mut waiting = cx(true);
    waiting.pending_selection = true;
    assert_eq!(editor.refresh_markdown_comments(waiting, &rows, &cursor_rows), None);
    assert!(editor.spans().concealed().is_empty(), "nothing moves while the mouse selects");
    let mut single_line = cx(true);
    single_line.full_mode = false;
    assert_eq!(editor.refresh_markdown_comments(single_line, &rows, &cursor_rows), None);
    assert!(editor.spans().concealed().is_empty());
    assert_eq!(
        editor.refresh_markdown_comments(cx(true), &rows, &cursor_rows),
        Some(vec![])
    );
    assert_eq!(editor.spans().concealed().len(), 2);
}

#[test]
fn debounced_refresh_only_in_a_full_editor_that_renders() {
    let mut editor = Editor::new();
    assert_eq!(
        editor.refresh_markdown_comments_debounced(true, true),
        Some(MARKDOWN_COMMENTS_DEBOUNCE_MS)
    );
    assert_eq!(MARKDOWN_COMMENTS_DEBOUNCE_MS, 50);
    assert_eq!(editor.refresh_markdown_comments_debounced(false, true), None);
    assert_eq!(editor.refresh_markdown_comments_debounced(true, false), None);
    editor.set_markdown_comments_enabled(Some(true));
    assert_eq!(
        editor.refresh_markdown_comments_debounced(true, false),
        Some(MARKDOWN_COMMENTS_DEBOUNCE_MS)
    );
}
