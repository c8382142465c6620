//! Comment rows: where the text of a row starts after its delimiter, and which rows of a buffer
//! form one block of comments.
use vstd::prelude::*;
use vstd::slice::slice_subrange;
use vstd::string::StringSliceAdditionalSpecFns;
use vstd::utf8::{encode_scalar, encode_utf8};

use crate::inline::{inline_marks, lemma_marks_in_order, marks_in_order, parse_inline_markdown_bytes};
use crate::spans::{apply_marks, Mark, MarkdownSpans};
use crate::style::MarkdownCommentStyle;

verus! {

broadcast use vstd::string::group_string_axioms, vstd::slice::group_slice_axioms;

/// The characters that `char::is_whitespace` accepts, the Unicode `White_Space` property.
pub open spec fn is_unicode_space(c: char) -> bool {
    let u = c as u32;
    ||| 0x09 <= u <= 0x0d
    ||| u == 0x20
    ||| u == 0x85
    ||| u == 0xa0
    ||| u == 0x1680
    ||| 0x2000 <= u <= 0x200a
    ||| u == 0x2028
    ||| u == 0x2029
    ||| u == 0x202f
    ||| u == 0x205f
    ||| u == 0x3000
}

/// The number of whitespace characters that start at `from`.
pub open spec fn space_run(c: Seq<char>, from: int) -> nat
    decreases c.len() - from,
{
    if 0 <= from < c.len() && is_unicode_space(c[from]) {
        1 + space_run(c, from + 1)
    } else {
        0
    }
}

/// The number of `' '` characters that start at `from`.
pub open spec fn blank_run(c: Seq<char>, from: int) -> nat
    decreases c.len() - from,
{
    if 0 <= from < c.len() && c[from] == ' ' {
        1 + blank_run(c, from + 1)
    } else {
        0
    }
}

/// Whether the character at `i` is `x`.
pub open spec fn char_is(c: Seq<char>, i: int, x: char) -> bool {
    0 <= i < c.len() && c[i] == x
}

/// The length of the comment delimiter at `at`, or zero when none is there. The delimiters are
/// tried in this order, so the longest of those that share a start wins: `///`, `//!`, `//`,
/// `/**`, `/*`, `*/`, `*`, `#`.
pub open spec fn delimiter_len(c: Seq<char>, at: int) -> int {
    if char_is(c, at, '/') && char_is(c, at + 1, '/') && (char_is(c, at + 2, '/') || char_is(
        c,
        at + 2,
        '!',
    )) {
        3
    } else if char_is(c, at, '/') && char_is(c, at + 1, '/') {
        2
    } else if char_is(c, at, '/') && char_is(c, at + 1, '*') && char_is(c, at + 2, '*') {
        3
    } else if char_is(c, at, '/') && char_is(c, at + 1, '*') {
        2
    } else if char_is(c, at, '*') && char_is(c, at + 1, '/') {
        2
    } else if char_is(c, at, '*') || char_is(c, at, '#') {
        1
    } else {
        0
    }
}

/// Whether every character from `from` on is whitespace.
pub open spec fn blank_from(c: Seq<char>, from: int) -> bool {
    forall|j: int| from <= j < c.len() ==> is_unicode_space(#[trigger] c[j])
}

/// Where the text of a comment row starts, in characters: after the indentation, the delimiter,
/// and the spaces that follow the delimiter. A row that holds nothing but whitespace after its
/// delimiter, a delimiter that no space follows, and a row without delimiter have no text.
pub open spec fn text_start_chars(c: Seq<char>) -> Option<int> {
    let indent = space_run(c, 0) as int;
    let dlen = delimiter_len(c, indent);
    let after = indent + dlen;
    if dlen == 0 || blank_from(c, after) {
        None
    } else if blank_run(c, after) == 0 {
        None
    } else {
        Some(after + blank_run(c, after))
    }
}

/// Where the text of a comment row starts, as a byte offset into the line.
pub open spec fn text_start_of(line: Seq<char>) -> Option<int> {
    match text_start_chars(line) {
        Some(k) => Some(encode_utf8(line.take(k)).len() as int),
        None => None,
    }
}

/// Encoding two runs of characters one after the other encodes each in turn.
pub proof fn lemma_encode_utf8_concat(a: Seq<char>, b: Seq<char>)
    ensures
        encode_utf8(a + b) == encode_utf8(a) + encode_utf8(b),
    decreases a.len(),
{
    if a.len() == 0 {
        assert(a + b =~= b);
        assert(encode_utf8(a) =~= Seq::<u8>::empty());
        assert(encode_utf8(a) + encode_utf8(b) =~= encode_utf8(b));
    } else {
        assert((a + b).drop_first() =~= a.drop_first() + b);
        lemma_encode_utf8_concat(a.drop_first(), b);
        assert(encode_utf8(a) + encode_utf8(b) =~= encode_scalar(a[0] as u32) + (encode_utf8(
            a.drop_first(),
        ) + encode_utf8(b)));
    }
}

/// The characters of a string, in order.
fn chars_of(line: &str) -> (r: Vec<char>)
    ensures
        r@ == line@,
{
    let mut v: Vec<char> = Vec::new();
    for c in it: line.chars()
        invariant
            v@ == it.seq().take(it.index() as int),
            it.seq() == line@,
    {
        v.push(c);
    }
    v
}

/// The comment delimiters, in the order they are tried.
pub open spec fn is_delimiter(d: Seq<char>) -> bool {
    ||| d == seq!['/', '/', '/']
    ||| d == seq!['/', '/', '!']
    ||| d == seq!['/', '/']
    ||| d == seq!['/', '*', '*']
    ||| d == seq!['/', '*']
    ||| d == seq!['*', '/']
    ||| d == seq!['*']
    ||| d == seq!['#']
}

proof fn lemma_space_run_of_indent(c: Seq<char>, k: int, i: int)
    requires
        0 <= i <= k < c.len(),
        forall|j: int| 0 <= j < k ==> is_unicode_space(#[trigger] c[j]),
        !is_unicode_space(c[k]),
    ensures
        space_run(c, i) == k - i,
    decreases k - i,
{
    if i < k {
        lemma_space_run_of_indent(c, k, i + 1);
    }
}

proof fn lemma_blank_run_of_spaces(c: Seq<char>, from: int, n: int, i: int)
    requires
        0 <= from <= i <= from + n < c.len(),
        forall|j: int| from <= j < from + n ==> #[trigger] c[j] == ' ',
        c[from + n] != ' ',
    ensures
        blank_run(c, i) == from + n - i,
    decreases from + n - i,
{
    if i < from + n {
        lemma_blank_run_of_spaces(c, from, n, i + 1);
    }
}

/// For a row made of indentation, one of the delimiters `///`, `//!`, `//`, `/**`, `/*`, `*/`,
/// `*`, `#`, one or more spaces, and text that does not start with whitespace, the text starts
/// after the indentation, the delimiter and the spaces: at the byte length of the indentation,
/// plus the length of the delimiter, plus the number of spaces.
pub proof fn lemma_text_start_law(indent: Seq<char>, d: Seq<char>, n: int, t: Seq<char>)
    requires
        forall|i: int| 0 <= i < indent.len() ==> is_unicode_space(#[trigger] indent[i]),
        is_delimiter(d),
        n >= 1,
        t.len() >= 1,
        !is_unicode_space(t[0]),
    ensures
        text_start_of(indent + d + Seq::new(n as nat, |i: int| ' ') + t) == Some(
            encode_utf8(indent).len() + d.len() + n,
        ),
{
    let sp = Seq::new(n as nat, |i: int| ' ');
    let line = indent + d + sp + t;
    let k = indent.len() as int;
    let dl = d.len() as int;
    let after = k + dl;
    assert(line.len() == k + dl + n + t.len());
    assert forall|j: int| 0 <= j < k implies is_unicode_space(#[trigger] line[j]) by {
        assert(line[j] == indent[j]);
    }
    assert forall|j: int| 0 <= j < dl implies #[trigger] line[k + j] == d[j] by {}
    assert forall|j: int| after <= j < after + n implies #[trigger] line[j] == ' ' by {}
    assert(line[after + n] == t[0]);
    assert(line[k] == d[0]);
    lemma_space_run_of_indent(line, k, 0);
    assert(line[k + 1] == (if dl > 1 { d[1] } else { ' ' }));
    assert(line[k + 2] == (if dl > 2 { d[2] } else if dl + n > 2 { ' ' } else { t[0] }));
    assert(delimiter_len(line, k) == dl);
    assert(!blank_from(line, after)) by {
        assert(!is_unicode_space(line[after + n]));
    }
    assert(t[0] != ' ');
    lemma_blank_run_of_spaces(line, after, n, after);
    assert(text_start_chars(line) == Some(after + n));
    let head = d + sp;
    assert(line.take(after + n) =~= indent + head);
    lemma_encode_utf8_concat(indent, head);
    assert forall|i: int| 0 <= i < head.len() implies (#[trigger] head[i] as u32) < 0x80 by {
        if i < dl {
            assert(head[i] == d[i]);
        } else {
            assert(head[i] == ' ');
        }
    }
    lemma_encode_ascii_len(head);
}

/// Characters below `0x80` take one byte each.
proof fn lemma_encode_ascii_len(s: Seq<char>)
    requires
        forall|i: int| 0 <= i < s.len() ==> (#[trigger] s[i] as u32) < 0x80,
    ensures
        encode_utf8(s).len() == s.len(),
    decreases s.len(),
{
    if s.len() > 0 {
        let rest = s.drop_first();
        assert forall|i: int| 0 <= i < rest.len() implies (#[trigger] rest[i] as u32) < 0x80 by {
            assert(rest[i] == s[i + 1]);
        }
        lemma_encode_ascii_len(rest);
    }
}

/// A prefix of the characters encodes to a prefix of the bytes.
proof fn lemma_encode_prefix(c: Seq<char>, k: int)
    requires
        0 <= k <= c.len(),
    ensures
        encode_utf8(c) == encode_utf8(c.take(k)) + encode_utf8(c.skip(k)),
        encode_utf8(c.take(k)).len() <= encode_utf8(c).len(),
{
    assert(c =~= c.take(k) + c.skip(k));
    lemma_encode_utf8_concat(c.take(k), c.skip(k));
}

/// Whether `char::is_whitespace` holds of the character.
fn unicode_space(c: char) -> (r: bool)
    ensures
        r == is_unicode_space(c),
{
    let u = c as u32;
    (0x09 <= u && u <= 0x0d) || u == 0x20 || u == 0x85 || u == 0xa0 || u == 0x1680 || (0x2000 <= u
        && u <= 0x200a) || u == 0x2028 || u == 0x2029 || u == 0x202f || u == 0x205f || u == 0x3000
}

/// The number of bytes that encode the character in UTF-8.
fn utf8_width(c: char) -> (r: usize)
    ensures
        r == encode_scalar(c as u32).len(),
        1 <= r <= 4,
{
    proof {
        vstd::utf8::char_is_scalar(c);
    }
    let u = c as u32;
    if u <= 0x7f {
        1
    } else if u <= 0x7ff {
        2
    } else if u <= 0xffff {
        3
    } else {
        4
    }
}

/// The length of the comment delimiter at `at`, or zero when none is there.
fn delimiter_at(c: &Vec<char>, at: usize) -> (r: usize)
    ensures
        r == delimiter_len(c@, at as int),
{
    let n = c.len();
    if at >= n {
        return 0;
    }
    let first = c[at];
    let second = if at + 1 < n {
        Some(c[at + 1])
    } else {
        None
    };
    let third = if at + 1 < n && at + 2 < n {
        Some(c[at + 2])
    } else {
        None
    };
    if first == '/' && second == Some('/') {
        if third == Some('/') || third == Some('!') {
            3
        } else {
            2
        }
    } else if first == '/' && second == Some('*') {
        if third == Some('*') {
            3
        } else {
            2
        }
    } else if first == '*' && second == Some('/') {
        2
    } else if first == '*' || first == '#' {
        1
    } else {
        0
    }
}

/// The byte offset where the text of a comment row starts, after its delimiter.
///
/// Returns `None` when the row carries no text of its own, such as the `/**` row of a doc comment.
pub fn comment_text_start(line: &str) -> (r: Option<usize>)
    ensures
        r == (match text_start_of(line@) {
            Some(k) => Some(k as usize),
            None => None::<usize>,
        }),
        text_start_of(line@) matches Some(k) ==> 0 <= k <= line.spec_bytes().len(),
{
    let bytes = line.as_bytes();
    let total = bytes.len();
    let c = chars_of(line);
    let n = c.len();
    let mut indent: usize = 0;
    let mut indent_bytes: usize = 0;
    while indent < n && unicode_space(c[indent])
        invariant
            indent <= n == c@.len(),
            c@ == line@,
            bytes@ == encode_utf8(c@),
            bytes@.len() <= usize::MAX,
            space_run(c@, 0) == indent + space_run(c@, indent as int),
            indent_bytes == encode_utf8(c@.take(indent as int)).len(),
        decreases n - indent,
    {
        proof {
            let k = indent as int;
            assert(c@.take(k + 1) =~= c@.take(k) + seq![c@[k]]);
            lemma_encode_utf8_concat(c@.take(k), seq![c@[k]]);
            assert(encode_utf8(seq![c@[k]]) =~= encode_scalar(c@[k] as u32)) by {
                reveal_with_fuel(encode_utf8, 2);
                assert(seq![c@[k]].drop_first() =~= Seq::<char>::empty());
            }
            lemma_encode_prefix(c@, k + 1);
        }
        indent_bytes = indent_bytes + utf8_width(c[indent]);
        indent = indent + 1;
    }
    let ghost k = indent as int;
    assert(space_run(c@, k) == 0);
    let dlen = delimiter_at(&c, indent);
    if dlen == 0 {
        return None;
    }
    let after = indent + dlen;
    let mut j: usize = after;
    while j < n && unicode_space(c[j])
        invariant
            after <= j <= n == c@.len(),
            forall|i: int| after <= i < j ==> is_unicode_space(#[trigger] c@[i]),
        decreases n - j,
    {
        j = j + 1;
    }
    if j >= n {
        return None;
    }
    assert(!blank_from(c@, after as int));
    let mut end: usize = after;
    while end < n && c[end] == ' '
        invariant
            after <= end <= n == c@.len(),
            blank_run(c@, after as int) == (end - after) + blank_run(c@, end as int),
            forall|i: int| after <= i < end ==> #[trigger] c@[i] == ' ',
        decreases n - end,
    {
        end = end + 1;
    }
    let spaces = end - after;
    if spaces == 0 {
        return None;
    }
    proof {
        let tail = c@.subrange(k, end as int);
        assert forall|i: int| 0 <= i < tail.len() implies (#[trigger] tail[i] as u32) < 0x80 by {
            let p = k + i;
            if p < after {
                assert(c@[p] == '/' || c@[p] == '*' || c@[p] == '!' || c@[p] == '#');
            } else {
                assert(c@[p] == ' ');
            }
            assert(tail[i] == c@[p]);
        }
        lemma_encode_ascii_len(tail);
        assert(c@.take(end as int) =~= c@.take(k) + tail);
        lemma_encode_utf8_concat(c@.take(k), tail);
        lemma_encode_prefix(c@, end as int);
    }
    Some(indent_bytes + dlen + spaces)
}

/// The marks of one comment row whose first byte sits at `line_start` in the buffer: none when
/// the row carries no text of its own, else those of its text with no markup around it.
pub open spec fn row_marks(line: Seq<char>, line_start: int) -> Seq<Mark> {
    match text_start_of(line) {
        Some(k) => inline_marks(
            encode_utf8(line).subrange(k, encode_utf8(line).len() as int),
            line_start + k,
            0,
        ),
        None => seq![],
    }
}

/// The comment delimiters stay as they are: every mark of a comment row lies in its text, after
/// the delimiter and the spaces that follow it, and the marks come in order without overlap.
pub proof fn lemma_row_keeps_delimiter(line: Seq<char>, line_start: int)
    ensures
        row_marks(line, line_start).len() > 0 ==> text_start_of(line) is Some,
        text_start_of(line) matches Some(k) ==> marks_in_order(
            row_marks(line, line_start),
            line_start + k,
            line_start + encode_utf8(line).len(),
        ),
{
    if let Some(k) = text_start_of(line) {
        let bytes = encode_utf8(line);
        let text = bytes.subrange(k, bytes.len() as int);
        lemma_text_start_bound(line);
        lemma_marks_in_order(text, line_start + k, 0);
    }
}

/// The text of a row starts inside the row.
proof fn lemma_text_start_bound(line: Seq<char>)
    ensures
        text_start_of(line) matches Some(k) ==> 0 <= k <= encode_utf8(line).len(),
{
    if let Some(c) = text_start_chars(line) {
        let indent = space_run(line, 0) as int;
        let after = indent + delimiter_len(line, indent);
        lemma_space_run_bound(line, 0);
        lemma_blank_run_bound(line, after);
        lemma_encode_prefix(line, c);
    }
}

proof fn lemma_space_run_bound(c: Seq<char>, from: int)
    requires
        0 <= from <= c.len(),
    ensures
        from + space_run(c, from) <= c.len(),
    decreases c.len() - from,
{
    if from < c.len() && is_unicode_space(c[from]) {
        lemma_space_run_bound(c, from + 1);
    }
}

proof fn lemma_blank_run_bound(c: Seq<char>, from: int)
    requires
        0 <= from,
    ensures
        blank_run(c, from) > 0 ==> from + blank_run(c, from) <= c.len(),
    decreases c.len() - from,
{
    if from < c.len() && c[from] == ' ' {
        lemma_blank_run_bound(c, from + 1);
    }
}

/// Parses the Markdown of one comment row, whose first byte sits at `line_start` in the buffer.
pub fn parse_comment_row(line: &str, line_start: usize, spans: &mut MarkdownSpans)
    requires
        line_start + line.spec_bytes().len() <= usize::MAX,
    ensures
        final(spans)@ == apply_marks(old(spans)@, row_marks(line@, line_start as int)),
{
    let bytes = line.as_bytes();
    match comment_text_start(line) {
        None => {
            assert(apply_marks(spans@, Seq::<Mark>::empty()) == spans@);
        },
        Some(text_start) => {
            let text = slice_subrange(bytes, text_start, bytes.len());
            assert(text_start_of(line@) == Some(text_start as int));
            assert(text@ == encode_utf8(line@).subrange(
                text_start as int,
                encode_utf8(line@).len() as int,
            ));
            parse_inline_markdown_bytes(
                text,
                line_start + text_start,
                MarkdownCommentStyle::default(),
                spans,
            );
        },
    }
}

} // verus!
