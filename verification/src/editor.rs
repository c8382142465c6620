//! What an editor keeps for the Markdown of its comments: its own toggle, the spans it draws,
//! and the styles it has highlighted; and what a refresh changes of it.
use vstd::prelude::*;

use crate::buffer::{buffer_marks, markdown_comment_spans, rows_fit, BufferRow};
use crate::spans::{apply_marks, empty_spans, MarkdownSpans, SpansView};
use crate::style::MarkdownCommentStyle;

verus! {

/// The state of an editor, as plain values.
pub struct EditorView {
    /// The toggle of the editor, when it overrides the setting.
    pub enabled: Option<bool>,
    /// The spans it draws.
    pub spans: SpansView,
    /// The styles it has highlighted, in the order of their groups.
    pub styles: Seq<u8>,
}

/// The styles of the groups of the spans, in order.
pub open spec fn styles_of(v: SpansView) -> Seq<u8> {
    v.styled.map_values(|g: (u8, Seq<(int, int)>)| g.0)
}

/// The styles of `previous` that `current` no longer holds, in their order.
pub open spec fn stale_styles(previous: Seq<u8>, current: Seq<u8>) -> Seq<u8>
    decreases previous.len(),
{
    if previous.len() == 0 {
        seq![]
    } else {
        stale_styles(previous.drop_last(), current) + (if current.contains(previous.last()) {
            seq![]
        } else {
            seq![previous.last()]
        })
    }
}

/// A refresh with newly computed spans: when they are the spans drawn already, nothing changes
/// and nothing is to be done; else the editor draws the new spans, highlights their styles, and
/// is to clear the highlights of the styles it drew before and draws no more.
pub open spec fn refresh_outcome(e: EditorView, spans: SpansView) -> (EditorView, Option<Seq<u8>>) {
    if spans == e.spans {
        (e, None)
    } else {
        (
            EditorView { enabled: e.enabled, spans, styles: styles_of(spans) },
            Some(stale_styles(e.styles, styles_of(spans))),
        )
    }
}

/// Whether the Markdown of comments is rendered: the editor's own toggle, else the setting.
pub open spec fn enabled_with(toggle: Option<bool>, setting: bool) -> bool {
    match toggle {
        Some(enabled) => enabled,
        None => setting,
    }
}

/// How long the refresh that follows a move of the cursor waits, in milliseconds: long enough
/// for the clicks and the drags of one gesture to settle, short enough to read as immediate.
pub const MARKDOWN_COMMENTS_DEBOUNCE_MS: u64 = 50;

/// What a refresh reads of the editor besides its own state, as plain values.
#[derive(Debug, Clone, Copy, PartialEq, Eq, Structural)]
pub struct RefreshContext {
    /// The `render_markdown_in_comments` setting.
    pub setting: bool,
    /// Whether the editor is a full editor (not a single line or an auto-height field).
    pub full_mode: bool,
    /// Whether the mouse is still choosing the selection.
    pub pending_selection: bool,
    /// Whether the editor shows a single buffer.
    pub singleton: bool,
}

/// The spans an editor draws for a buffer: those of its comment blocks without a cursor when
/// the rendering is enabled and the editor shows a single buffer, and none at all else.
pub open spec fn drawn_spans(
    enabled: bool,
    singleton: bool,
    rows: Seq<BufferRow>,
    cursors: Seq<u32>,
) -> SpansView {
    if enabled && singleton {
        apply_marks(empty_spans(), buffer_marks(rows, cursors, 0))
    } else {
        empty_spans()
    }
}

/// A refresh against the buffer. Outside a full editor, and while the mouse still chooses the
/// selection, nothing changes and nothing is to be done; else the spans drawn are those the
/// editor's toggle, else the setting, asks for.
pub open spec fn refresh_for(
    e: EditorView,
    cx: RefreshContext,
    rows: Seq<BufferRow>,
    cursors: Seq<u32>,
) -> (EditorView, Option<Seq<u8>>) {
    if !cx.full_mode || cx.pending_selection {
        (e, None)
    } else {
        refresh_outcome(
            e,
            drawn_spans(enabled_with(e.enabled, cx.setting), cx.singleton, rows, cursors),
        )
    }
}

/// A toggle: the editor's own toggle is set to the opposite of what it renders now, and the
/// editor refreshes at once against the buffer.
pub open spec fn toggle_outcome(
    e: EditorView,
    cx: RefreshContext,
    rows: Seq<BufferRow>,
    cursors: Seq<u32>,
) -> (EditorView, Option<Seq<u8>>) {
    refresh_for(
        EditorView { enabled: Some(!enabled_with(e.enabled, cx.setting)), ..e },
        cx,
        rows,
        cursors,
    )
}

/// The spans of the buffer, when the rendering is enabled and the editor shows a single buffer;
/// none else.
pub fn spans_to_draw(
    enabled: bool,
    singleton: bool,
    rows: &Vec<BufferRow>,
    cursor_rows: &Vec<u32>,
) -> (r: MarkdownSpans)
    requires
        rows@.len() < u32::MAX,
        rows_fit(rows@),
    ensures
        r@ == drawn_spans(enabled, singleton, rows@, cursor_rows@),
{
    if enabled && singleton {
        markdown_comment_spans(rows, cursor_rows)
    } else {
        MarkdownSpans::default()
    }
}

/// The part of an editor that renders the Markdown of its comments.
pub struct Editor {
    /// The toggle of this editor; `None` follows the setting.
    markdown_comments_enabled: Option<bool>,
    markdown_comment_spans: MarkdownSpans,
    markdown_comment_styles: Vec<MarkdownCommentStyle>,
}

impl View for Editor {
    type V = EditorView;

    closed spec fn view(&self) -> EditorView {
        EditorView {
            enabled: self.markdown_comments_enabled,
            spans: self.markdown_comment_spans@,
            styles: self.markdown_comment_styles@.map_values(|s: MarkdownCommentStyle| s.0),
        }
    }
}

/// A refresh with the spans it has just drawn changes nothing more: moving the cursor inside one
/// comment leaves the same thing to draw, and the folds are not rebuilt, so the comment does not
/// flicker.
pub proof fn lemma_refresh_settles(e: EditorView, spans: SpansView)
    ensures
        refresh_outcome(refresh_outcome(e, spans).0, spans) == (refresh_outcome(e, spans).0, None::<
            Seq<u8>,
        >),
{
}

/// A refresh never touches the toggle of the editor.
pub proof fn lemma_refresh_keeps_toggle(e: EditorView, spans: SpansView)
    ensures
        refresh_outcome(e, spans).0.enabled == e.enabled,
{
}

/// After a refresh, the editor draws the spans it was given.
pub proof fn lemma_refresh_draws(e: EditorView, spans: SpansView)
    ensures
        refresh_outcome(e, spans).0.spans == spans,
{
}

/// With the setting off and no toggle of its own, an editor draws nothing: its comments stay as
/// their source.
pub proof fn lemma_disabled_draws_nothing(
    e: EditorView,
    cx: RefreshContext,
    rows: Seq<BufferRow>,
    cursors: Seq<u32>,
)
    requires
        !enabled_with(e.enabled, cx.setting),
        cx.full_mode,
        !cx.pending_selection,
    ensures
        refresh_for(e, cx, rows, cursors).0.spans == empty_spans(),
{
}

/// Outside a full editor, and while the mouse still chooses the selection, a refresh changes
/// nothing: the rows it points at must not move.
pub proof fn lemma_refresh_waits(
    e: EditorView,
    cx: RefreshContext,
    rows: Seq<BufferRow>,
    cursors: Seq<u32>,
)
    requires
        !cx.full_mode || cx.pending_selection,
    ensures
        refresh_for(e, cx, rows, cursors) == (e, None::<Seq<u8>>),
{
}

/// Two toggles undo each other on the screen: after the first, the editor renders the opposite
/// of what it rendered, whatever the setting; after the second, it draws what it drew with the
/// rendering as it was, and its own toggle holds that choice.
pub proof fn lemma_toggle_twice(
    e: EditorView,
    cx: RefreshContext,
    rows: Seq<BufferRow>,
    cursors: Seq<u32>,
)
    requires
        cx.full_mode,
        !cx.pending_selection,
    ensures
        ({
            let was = enabled_with(e.enabled, cx.setting);
            let once = toggle_outcome(e, cx, rows, cursors).0;
            let twice = toggle_outcome(once, cx, rows, cursors).0;
            &&& enabled_with(once.enabled, cx.setting) == !was
            &&& once.spans == drawn_spans(!was, cx.singleton, rows, cursors)
            &&& enabled_with(twice.enabled, cx.setting) == was
            &&& twice.enabled == Some(was)
            &&& twice.spans == drawn_spans(was, cx.singleton, rows, cursors)
        }),
{
}

impl Editor {
    /// An editor that follows the setting and draws nothing yet.
    pub fn new() -> (r: Self)
        ensures
            r@.enabled is None,
            r@.spans == empty_spans(),
            r@.styles.len() == 0,
    {
        let r = Editor {
            markdown_comments_enabled: None,
            markdown_comment_spans: MarkdownSpans::default(),
            markdown_comment_styles: Vec::new(),
        };
        assert(r@.styles =~= Seq::<u8>::empty());
        r
    }

    /// Whether this editor renders the Markdown of its comments: its own toggle, else `setting`,
    /// the `render_markdown_in_comments` setting.
    pub fn markdown_comments_enabled(&self, setting: bool) -> (r: bool)
        ensures
            r == enabled_with(self@.enabled, setting),
    {
        match self.markdown_comments_enabled {
            Some(enabled) => enabled,
            None => setting,
        }
    }

    /// Turns the rendering off where it is on and on where it is off, for this editor alone,
    /// and refreshes at once against the buffer's rows and the rows that hold a cursor. Returns
    /// what the refresh returns.
    pub fn toggle_markdown_comments(
        &mut self,
        cx: RefreshContext,
        rows: &Vec<BufferRow>,
        cursor_rows: &Vec<u32>,
    ) -> (r: Option<Vec<MarkdownCommentStyle>>)
        requires
            rows@.len() < u32::MAX,
            rows_fit(rows@),
        ensures
            final(self)@ == toggle_outcome(old(self)@, cx, rows@, cursor_rows@).0,
            match r {
                Some(cleared) => toggle_outcome(old(self)@, cx, rows@, cursor_rows@).1 == Some(
                    cleared@.map_values(|s: MarkdownCommentStyle| s.0),
                ),
                None => toggle_outcome(old(self)@, cx, rows@, cursor_rows@).1 is None,
            },
    {
        let enabled = self.markdown_comments_enabled(cx.setting);
        self.markdown_comments_enabled = Some(!enabled);
        self.refresh_markdown_comments(cx, rows, cursor_rows)
    }

    /// Whether a move of the cursor schedules a refresh, and after how many milliseconds: only a
    /// full editor that renders the Markdown of its comments does, after the debounce delay.
    pub fn refresh_markdown_comments_debounced(&self, full_mode: bool, setting: bool) -> (r:
        Option<u64>)
        ensures
            r == (if full_mode && enabled_with(self@.enabled, setting) {
                Some(MARKDOWN_COMMENTS_DEBOUNCE_MS)
            } else {
                None::<u64>
            }),
    {
        if !full_mode || !self.markdown_comments_enabled(setting) {
            return None;
        }
        Some(MARKDOWN_COMMENTS_DEBOUNCE_MS)
    }

    /// The editor's own toggle; `None` follows the setting.
    pub fn markdown_comments_toggle(&self) -> (r: Option<bool>)
        ensures
            r == self@.enabled,
    {
        self.markdown_comments_enabled
    }

    /// Sets the editor's own toggle; `None` follows the setting again.
    pub fn set_markdown_comments_enabled(&mut self, enabled: Option<bool>)
        ensures
            final(self)@ == (EditorView { enabled, ..old(self)@ }),
    {
        self.markdown_comments_enabled = enabled;
    }

    /// Refreshes against the buffer's rows and the rows that hold a cursor. Outside a full
    /// editor, and while the mouse still chooses the selection, changes nothing and returns
    /// `None`. Else draws the spans of the comment blocks without a cursor when the rendering is
    /// enabled (the editor's own toggle, else the setting) and the editor shows a single buffer,
    /// and nothing when not, and returns what `draw_markdown_spans` returns.
    pub fn refresh_markdown_comments(
        &mut self,
        cx: RefreshContext,
        rows: &Vec<BufferRow>,
        cursor_rows: &Vec<u32>,
    ) -> (r: Option<Vec<MarkdownCommentStyle>>)
        requires
            rows@.len() < u32::MAX,
            rows_fit(rows@),
        ensures
            final(self)@ == refresh_for(old(self)@, cx, rows@, cursor_rows@).0,
            match r {
                Some(cleared) => refresh_for(old(self)@, cx, rows@, cursor_rows@).1 == Some(
                    cleared@.map_values(|s: MarkdownCommentStyle| s.0),
                ),
                None => refresh_for(old(self)@, cx, rows@, cursor_rows@).1 is None,
            },
    {
        if !cx.full_mode || cx.pending_selection {
            return None;
        }
        let enabled = self.markdown_comments_enabled(cx.setting);
        let spans = spans_to_draw(enabled, cx.singleton, rows, cursor_rows);
        self.draw_markdown_spans(spans)
    }

    /// The spans drawn.
    pub fn spans(&self) -> (r: &MarkdownSpans)
        ensures
            r@ == self@.spans,
    {
        &self.markdown_comment_spans
    }

    /// Takes newly computed spans. Returns `None` when they are the spans drawn already, which
    /// leaves everything as it is; else draws them and returns the styles whose highlights are
    /// to be cleared.
    pub fn draw_markdown_spans(&mut self, spans: MarkdownSpans) -> (r: Option<
        Vec<MarkdownCommentStyle>,
    >)
        ensures
            final(self)@ == refresh_outcome(old(self)@, spans@).0,
            match r {
                Some(cleared) => refresh_outcome(old(self)@, spans@).1 == Some(
                    cleared@.map_values(|s: MarkdownCommentStyle| s.0),
                ),
                None => refresh_outcome(old(self)@, spans@).1 is None,
            },
    {
        if spans.same_as(&self.markdown_comment_spans) {
            return None;
        }
        let styles = spans.styles();
        let ghost current = styles_of(spans@);
        let ghost previous = self@.styles;
        let mut cleared: Vec<MarkdownCommentStyle> = Vec::new();
        let mut i: usize = 0;
        while i < self.markdown_comment_styles.len()
            invariant
                i <= self.markdown_comment_styles@.len(),
                previous == self.markdown_comment_styles@.map_values(
                    |s: MarkdownCommentStyle| s.0,
                ),
                styles@.map_values(|s: MarkdownCommentStyle| s.0) == current,
                cleared@.map_values(|s: MarkdownCommentStyle| s.0) == stale_styles(
                    previous.take(i as int),
                    current,
                ),
            decreases self.markdown_comment_styles@.len() - i,
        {
            let style = self.markdown_comment_styles[i];
            let mut drawn = false;
            let mut j: usize = 0;
            while j < styles.len()
                invariant
                    j <= styles@.len(),
                    styles@.map_values(|s: MarkdownCommentStyle| s.0) == current,
                    drawn == exists|k: int| 0 <= k < j && #[trigger] current[k] == style.0,
                decreases styles@.len() - j,
            {
                assert(current[j as int] == styles@[j as int].0);
                if styles[j] == style {
                    drawn = true;
                }
                assert(drawn == exists|k: int| 0 <= k < j + 1 && #[trigger] current[k] == style.0) by {
                    if current[j as int] == style.0 {
                        assert(0 <= j < j + 1 && current[j as int] == style.0);
                    }
                }
                j = j + 1;
            }
            proof {
                assert(previous.take(i + 1).drop_last() =~= previous.take(i as int));
                assert(previous.take(i + 1).last() == style.0);
                if drawn {
                    let k = choose|k: int| 0 <= k < j && #[trigger] current[k] == style.0;
                    assert(current.contains(style.0));
                } else {
                    assert(!current.contains(style.0));
                }
            }
            if !drawn {
                cleared.push(style);
            }
            assert(cleared@.map_values(|s: MarkdownCommentStyle| s.0) =~= stale_styles(
                previous.take(i + 1),
                current,
            ));
            i = i + 1;
        }
        assert(previous.take(previous.len() as int) =~= previous);
        self.markdown_comment_spans = spans;
        self.markdown_comment_styles = styles;
        Some(cleared)
    }
}

} // verus!
