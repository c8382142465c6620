//! The rows of a buffer: which rows are comments, which of them form one block, and the spans
//! of all the blocks that no cursor is in.
use std::ops::Range;

use vstd::prelude::*;
use vstd::string::StringSliceAdditionalSpecFns;
use vstd::utf8::encode_utf8;

use crate::comment::{parse_comment_row, row_marks};
use crate::spans::{apply_marks, empty_spans, lemma_apply_marks_concat, Mark, MarkdownSpans};

verus! {

/// One row of a buffer, as the spans of the buffer need it.
pub struct BufferRow {
    /// Whether the row is a comment row (see `is_comment_row`).
    pub is_comment: bool,
    /// The byte offset of the first byte of the row in the buffer.
    pub start: usize,
    /// The text of the row, without its line break.
    pub text: String,
}

/// Whether a row is a comment: it holds more than its indentation, and the language scope at
/// the end of the indentation is a comment.
pub fn is_comment_row(indent: u32, line_len: u32, scope_is_comment: bool) -> (r: bool)
    ensures
        r == (indent < line_len && scope_is_comment),
{
    if indent >= line_len {
        return false;
    }
    scope_is_comment
}

/// The number of consecutive comment rows from `from` up to `last`.
pub open spec fn comment_run(rows: Seq<BufferRow>, from: int, last: int) -> nat
    decreases last + 1 - from,
{
    if 0 <= from <= last && from < rows.len() && rows[from].is_comment {
        1 + comment_run(rows, from + 1, last)
    } else {
        0
    }
}

/// A run of comment rows ends inside the buffer and at `last + 1` at the latest, and every row
/// in it is a comment row.
pub proof fn lemma_comment_run(rows: Seq<BufferRow>, from: int, last: int)
    requires
        0 <= from <= rows.len(),
    ensures
        from + comment_run(rows, from, last) <= rows.len(),
        comment_run(rows, from, last) > 0 ==> from + comment_run(rows, from, last) <= last + 1,
        forall|i: int|
            from <= i < from + comment_run(rows, from, last) ==> (#[trigger] rows[i]).is_comment,
    decreases last + 1 - from,
{
    if 0 <= from <= last && from < rows.len() && rows[from].is_comment {
        lemma_comment_run(rows, from + 1, last);
    }
}

/// The rows of the comment block that starts at `row`, up to `last`, when that row is a comment.
pub open spec fn block_at(rows: Seq<BufferRow>, row: int, last: int) -> Option<(int, int)> {
    if 0 <= row < rows.len() && rows[row].is_comment {
        Some((row, row + 1 + comment_run(rows, row + 1, last)))
    } else {
        None
    }
}

/// Whether a cursor sits on one of the rows from `start` up to `end`.
pub open spec fn cursor_in(cursors: Seq<u32>, start: int, end: int) -> bool {
    exists|i: int| 0 <= i < cursors.len() && start <= #[trigger] cursors[i] < end
}

/// The marks of the rows from `from` up to `end`, one row after the other.
pub open spec fn block_marks(rows: Seq<BufferRow>, from: int, end: int) -> Seq<Mark>
    decreases end - from,
{
    if from < 0 || from >= end || from >= rows.len() {
        seq![]
    } else {
        row_marks(rows[from].text@, rows[from].start as int) + block_marks(rows, from + 1, end)
    }
}

/// The marks of the buffer from `row` on: each block of comment rows that no cursor is in gives
/// the marks of its rows; a block with a cursor keeps its source, and gives none.
pub open spec fn buffer_marks(rows: Seq<BufferRow>, cursors: Seq<u32>, row: int) -> Seq<Mark>
    decreases rows.len() - row,
{
    if row < 0 || row >= rows.len() {
        seq![]
    } else {
        if rows[row].is_comment {
            let end = row + 1 + comment_run(rows, row + 1, rows.len() - 1);
            proof {
                lemma_comment_run(rows, row + 1, rows.len() - 1);
            }
            (if cursor_in(cursors, row, end) {
                seq![]
            } else {
                block_marks(rows, row, end)
            }) + buffer_marks(rows, cursors, end)
        } else {
            buffer_marks(rows, cursors, row + 1)
        }
    }
}

/// The number of consecutive comment rows that end right before `r`.
pub open spec fn comment_before(rows: Seq<BufferRow>, r: int) -> nat
    decreases r,
{
    if 0 < r <= rows.len() && rows[r - 1].is_comment {
        1 + comment_before(rows, r - 1)
    } else {
        0
    }
}

/// The block of consecutive comment rows around the comment row `r`: where it starts, and where
/// it ends.
pub open spec fn block_around(rows: Seq<BufferRow>, r: int) -> (int, int) {
    (r - comment_before(rows, r), r + 1 + comment_run(rows, r + 1, rows.len() - 1))
}

/// Whether the comment row `r` is rendered: no cursor is in its block.
pub open spec fn row_rendered(rows: Seq<BufferRow>, cursors: Seq<u32>, r: int) -> bool {
    rows[r].is_comment && !cursor_in(cursors, block_around(rows, r).0, block_around(rows, r).1)
}

/// The marks of each rendered row from `from` on, row after row.
pub open spec fn rendered_marks(rows: Seq<BufferRow>, cursors: Seq<u32>, from: int) -> Seq<Mark>
    decreases rows.len() - from,
{
    if from < 0 || from >= rows.len() {
        seq![]
    } else {
        (if row_rendered(rows, cursors, from) {
            row_marks(rows[from].text@, rows[from].start as int)
        } else {
            seq![]
        }) + rendered_marks(rows, cursors, from + 1)
    }
}

/// Whether `row` is not inside a block: past the end, no comment, or the first row of a block.
spec fn at_block_edge(rows: Seq<BufferRow>, row: int) -> bool {
    row >= rows.len() || !rows[row].is_comment || row == 0 || !rows[row - 1].is_comment
}

/// Inside a block, the run of comment rows from any of its rows ends where the block ends.
proof fn lemma_run_to_block_end(rows: Seq<BufferRow>, s: int, f: int)
    requires
        0 <= s < rows.len(),
        s + 1 <= f <= s + 1 + comment_run(rows, s + 1, rows.len() - 1),
    ensures
        f + comment_run(rows, f, rows.len() - 1) == s + 1 + comment_run(
            rows,
            s + 1,
            rows.len() - 1,
        ),
    decreases f - s,
{
    if f > s + 1 {
        lemma_run_to_block_end(rows, s, f - 1);
        lemma_comment_run(rows, s + 1, rows.len() - 1);
        assert(rows[f - 1].is_comment);
    }
}

/// Inside a block, the comment rows before a row reach back to the start of the block.
proof fn lemma_before_to_block_start(rows: Seq<BufferRow>, s: int, r: int)
    requires
        0 <= s < rows.len(),
        rows[s].is_comment,
        s == 0 || !rows[s - 1].is_comment,
        s <= r < s + 1 + comment_run(rows, s + 1, rows.len() - 1),
    ensures
        comment_before(rows, r) == r - s,
    decreases r - s,
{
    lemma_comment_run(rows, s + 1, rows.len() - 1);
    if r > s {
        lemma_before_to_block_start(rows, s, r - 1);
        assert(rows[r - 1].is_comment);
    }
}

/// The rows of a block that holds no cursor are rendered one after the other; those of a block
/// that holds one give nothing.
proof fn lemma_block_rendered(rows: Seq<BufferRow>, cursors: Seq<u32>, s: int, r: int)
    requires
        0 <= s < rows.len(),
        rows[s].is_comment,
        s == 0 || !rows[s - 1].is_comment,
        s <= r <= s + 1 + comment_run(rows, s + 1, rows.len() - 1),
    ensures
        ({
            let e = s + 1 + comment_run(rows, s + 1, rows.len() - 1);
            rendered_marks(rows, cursors, r) == (if cursor_in(cursors, s, e) {
                seq![]
            } else {
                block_marks(rows, r, e)
            }) + rendered_marks(rows, cursors, e)
        }),
    decreases s + 1 + comment_run(rows, s + 1, rows.len() - 1) - r,
{
    let e = s + 1 + comment_run(rows, s + 1, rows.len() - 1);
    lemma_comment_run(rows, s + 1, rows.len() - 1);
    if r == e {
        assert(Seq::<Mark>::empty() + rendered_marks(rows, cursors, e) =~= rendered_marks(
            rows,
            cursors,
            e,
        ));
    } else {
        lemma_block_rendered(rows, cursors, s, r + 1);
        assert(rows[r].is_comment);
        lemma_before_to_block_start(rows, s, r);
        if r + 1 <= e - 1 {
            lemma_run_to_block_end(rows, s, r + 1);
        } else {
            lemma_run_to_block_end(rows, s, e);
        }
        assert(block_around(rows, r) == (s, e));
        let here = row_marks(rows[r].text@, rows[r].start as int);
        let tail = rendered_marks(rows, cursors, e);
        if cursor_in(cursors, s, e) {
            assert(Seq::<Mark>::empty() + (Seq::<Mark>::empty() + tail) =~= Seq::<Mark>::empty()
                + tail);
        } else {
            assert(here + (block_marks(rows, r + 1, e) + tail) =~= (here + block_marks(
                rows,
                r + 1,
                e,
            )) + tail);
        }
    }
}

/// The marks of the blocks from a block edge on are those of the rendered rows.
proof fn lemma_buffer_marks_rendered(rows: Seq<BufferRow>, cursors: Seq<u32>, row: int)
    requires
        0 <= row,
        at_block_edge(rows, row),
    ensures
        buffer_marks(rows, cursors, row) == rendered_marks(rows, cursors, row),
    decreases rows.len() - row,
{
    if row < rows.len() {
        if rows[row].is_comment {
            let e = row + 1 + comment_run(rows, row + 1, rows.len() - 1);
            lemma_comment_run(rows, row + 1, rows.len() - 1);
            lemma_block_rendered(rows, cursors, row, row);
            if e < rows.len() {
                assert(!rows[e].is_comment) by {
                    lemma_run_to_block_end(rows, row, e);
                    if rows[e].is_comment {
                        assert(comment_run(rows, e, rows.len() - 1) > 0);
                    }
                }
            }
            lemma_buffer_marks_rendered(rows, cursors, e);
        } else {
            lemma_buffer_marks_rendered(rows, cursors, row + 1);
            assert(Seq::<Mark>::empty() + rendered_marks(rows, cursors, row + 1) =~= rendered_marks(
                rows,
                cursors,
                row + 1,
            ));
        }
    }
}

/// The comment that holds a cursor keeps its markers, so it reads as its own source while it is
/// edited: the spans of a buffer are the marks of each comment row whose block of consecutive
/// comment rows holds no cursor, row after row, and nothing of any other row.
pub proof fn lemma_cursor_block_keeps_source(rows: Seq<BufferRow>, cursors: Seq<u32>)
    ensures
        buffer_marks(rows, cursors, 0) == rendered_marks(rows, cursors, 0),
{
    lemma_buffer_marks_rendered(rows, cursors, 0);
}

proof fn lemma_rendered_marks_same(rows: Seq<BufferRow>, c1: Seq<u32>, c2: Seq<u32>, from: int)
    requires
        forall|r: int|
            0 <= r < rows.len() && rows[r].is_comment ==> cursor_in(
                c1,
                #[trigger] block_around(rows, r).0,
                block_around(rows, r).1,
            ) == cursor_in(c2, block_around(rows, r).0, block_around(rows, r).1),
    ensures
        rendered_marks(rows, c1, from) == rendered_marks(rows, c2, from),
    decreases rows.len() - from,
{
    if 0 <= from < rows.len() {
        lemma_rendered_marks_same(rows, c1, c2, from + 1);
        if rows[from].is_comment {
            assert(cursor_in(c1, block_around(rows, from).0, block_around(rows, from).1)
                == cursor_in(c2, block_around(rows, from).0, block_around(rows, from).1));
        }
    }
}

/// Moving a cursor inside one comment block, or anywhere outside the comment blocks, leaves the
/// same spans to draw: the spans depend only on which blocks hold a cursor.
pub proof fn lemma_cursor_moves_within_block(rows: Seq<BufferRow>, c1: Seq<u32>, c2: Seq<u32>)
    requires
        forall|r: int|
            0 <= r < rows.len() && rows[r].is_comment ==> cursor_in(
                c1,
                #[trigger] block_around(rows, r).0,
                block_around(rows, r).1,
            ) == cursor_in(c2, block_around(rows, r).0, block_around(rows, r).1),
    ensures
        buffer_marks(rows, c1, 0) == buffer_marks(rows, c2, 0),
{
    lemma_cursor_block_keeps_source(rows, c1);
    lemma_cursor_block_keeps_source(rows, c2);
    lemma_rendered_marks_same(rows, c1, c2, 0);
}

/// The rows counted back from a row by `comment_before` are comment rows of the buffer.
proof fn lemma_comment_before(rows: Seq<BufferRow>, r: int)
    requires
        0 <= r <= rows.len(),
    ensures
        comment_before(rows, r) <= r,
        forall|x: int| r - comment_before(rows, r) <= x < r ==> (#[trigger] rows[x]).is_comment,
    decreases r,
{
    if 0 < r && rows[r - 1].is_comment {
        lemma_comment_before(rows, r - 1);
    }
}

/// A cursor on a row that is no comment, or past the end of the buffer, keeps no comment as its
/// source: the spans are those of a buffer without any cursor.
pub proof fn lemma_cursors_outside_comments(rows: Seq<BufferRow>, cursors: Seq<u32>)
    requires
        forall|i: int|
            0 <= i < cursors.len() ==> #[trigger] cursors[i] >= rows.len() || !rows[cursors[i] as int].is_comment,
    ensures
        buffer_marks(rows, cursors, 0) == buffer_marks(rows, Seq::<u32>::empty(), 0),
{
    assert forall|r: int|
        0 <= r < rows.len() && rows[r].is_comment implies cursor_in(
        cursors,
        #[trigger] block_around(rows, r).0,
        block_around(rows, r).1,
    ) == cursor_in(Seq::<u32>::empty(), block_around(rows, r).0, block_around(rows, r).1) by {
        lemma_comment_before(rows, r);
        lemma_comment_run(rows, r + 1, rows.len() - 1);
        let (start, end) = block_around(rows, r);
        if cursor_in(cursors, start, end) {
            let i = choose|i: int| 0 <= i < cursors.len() && start <= #[trigger] cursors[i] < end;
            let c = cursors[i] as int;
            assert(rows[c].is_comment);
        }
    }
    lemma_cursor_moves_within_block(rows, cursors, Seq::<u32>::empty());
}

/// Every row ends where a byte offset can still count: its start and the length of its text
/// in bytes stay within `usize`.
pub open spec fn rows_fit(rows: Seq<BufferRow>) -> bool {
    forall|i: int|
        0 <= i < rows.len() ==> (#[trigger] rows[i]).start + encode_utf8(rows[i].text@).len()
            <= usize::MAX
}

/// The rows of the comment block that starts at `row`, if that row is a comment.
pub fn comment_block_at(rows: &Vec<BufferRow>, row: u32, last_row: u32) -> (r: Option<Range<u32>>)
    requires
        row <= last_row < rows@.len(),
        last_row < u32::MAX,
    ensures
        match r {
            Some(b) => block_at(rows@, row as int, last_row as int) == Some(
                (b.start as int, b.end as int),
            ),
            None => block_at(rows@, row as int, last_row as int) is None,
        },
{
    if !rows[row as usize].is_comment {
        return None;
    }
    let mut end = row + 1;
    while end <= last_row && rows[end as usize].is_comment
        invariant
            row < end <= last_row + 1,
            last_row < rows@.len(),
            last_row < u32::MAX,
            comment_run(rows@, row as int + 1, last_row as int) == (end - row - 1) + comment_run(
                rows@,
                end as int,
                last_row as int,
            ),
        decreases last_row + 1 - end,
    {
        end = end + 1;
    }
    Some(row..end)
}

/// Whether a cursor sits on one of the rows of the block.
fn holds_cursor(cursor_rows: &Vec<u32>, block: &Range<u32>) -> (r: bool)
    ensures
        r == cursor_in(cursor_rows@, block.start as int, block.end as int),
{
    let mut i: usize = 0;
    while i < cursor_rows.len()
        invariant
            i <= cursor_rows@.len(),
            forall|j: int|
                0 <= j < i ==> !(block.start <= #[trigger] cursor_rows@[j] < block.end),
        decreases cursor_rows@.len() - i,
    {
        let cursor_row = cursor_rows[i];
        if block.start <= cursor_row && cursor_row < block.end {
            return true;
        }
        i = i + 1;
    }
    false
}

/// The spans of the comments of a buffer, given its rows and the rows that hold a cursor.
///
/// Each block of consecutive comment rows is parsed row by row, but for a block that holds a
/// cursor: that one keeps its markers, so it reads as its own source while it is edited.
pub fn markdown_comment_spans(rows: &Vec<BufferRow>, cursor_rows: &Vec<u32>) -> (r: MarkdownSpans)
    requires
        rows@.len() < u32::MAX,
        rows_fit(rows@),
    ensures
        r@ == apply_marks(empty_spans(), buffer_marks(rows@, cursor_rows@, 0)),
{
    let mut spans = MarkdownSpans::default();
    if rows.len() == 0 {
        return spans;
    }
    let last_row = (rows.len() - 1) as u32;
    let mut row: u32 = 0;
    while row <= last_row
        invariant
            last_row as int == rows@.len() - 1,
            rows@.len() < u32::MAX,
            rows_fit(rows@),
            row <= last_row + 1,
            apply_marks(spans@, buffer_marks(rows@, cursor_rows@, row as int)) == apply_marks(
                empty_spans(),
                buffer_marks(rows@, cursor_rows@, 0),
            ),
        decreases last_row + 1 - row,
    {
        match comment_block_at(rows, row, last_row) {
            None => {
                row = row + 1;
            },
            Some(block) => {
                proof {
                    lemma_comment_run(rows@, row + 1, last_row as int);
                }
                let ghost v0 = spans@;
                let ghost rest = buffer_marks(rows@, cursor_rows@, block.end as int);
                if !holds_cursor(cursor_rows, &block) {
                    let mut r = block.start;
                    while r < block.end
                        invariant
                            block.start <= r <= block.end <= rows@.len(),
                            rows_fit(rows@),
                            apply_marks(spans@, block_marks(rows@, r as int, block.end as int))
                                == apply_marks(
                                v0,
                                block_marks(rows@, block.start as int, block.end as int),
                            ),
                        decreases block.end - r,
                    {
                        let ghost v1 = spans@;
                        let row_ref = &rows[r as usize];
                        parse_comment_row(row_ref.text.as_str(), row_ref.start, &mut spans);
                        proof {
                            lemma_apply_marks_concat(
                                v1,
                                row_marks(row_ref.text@, row_ref.start as int),
                                block_marks(rows@, r + 1, block.end as int),
                            );
                        }
                        r = r + 1;
                    }
                    proof {
                        lemma_apply_marks_concat(
                            v0,
                            block_marks(rows@, block.start as int, block.end as int),
                            rest,
                        );
                    }
                } else {
                    assert(Seq::<Mark>::empty() + rest =~= rest);
                }
                row = block.end;
            },
        }
    }
    spans
}

} // verus!
