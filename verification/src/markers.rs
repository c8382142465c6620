//! Where a marker opens and closes markup, byte by byte.
//!
//! Every function here reads the bytes of one text (a comment, or the content of markup inside
//! it); the byte before its first and after its last byte count as absent.
use vstd::prelude::*;

verus! {

/// The bytes that `u8::is_ascii_whitespace` accepts: space, tab, line feed, form feed and
/// carriage return.
pub open spec fn is_ascii_space(b: u8) -> bool {
    b == 0x20 || b == 0x09 || b == 0x0a || b == 0x0c || b == 0x0d
}

/// The bytes that `u8::is_ascii_alphanumeric` accepts: `0-9`, `A-Z` and `a-z`.
pub open spec fn is_ascii_alnum(b: u8) -> bool {
    (0x30 <= b <= 0x39) || (0x41 <= b <= 0x5a) || (0x61 <= b <= 0x7a)
}

/// The first index at or after `from` that holds `byte`.
pub open spec fn first_index_of(s: Seq<u8>, from: int, byte: u8) -> Option<int>
    decreases s.len() - from,
{
    if from < 0 || from >= s.len() {
        None
    } else if s[from] == byte {
        Some(from)
    } else {
        first_index_of(s, from + 1, byte)
    }
}

/// The number of consecutive `marker` bytes that start at `from`.
pub open spec fn run_length(s: Seq<u8>, from: int, marker: u8) -> nat
    decreases s.len() - from,
{
    if 0 <= from < s.len() && s[from] == marker {
        1 + run_length(s, from + 1, marker)
    } else {
        0
    }
}

/// Whether the run of `run` markers at `index` can open emphasis: something other than a space
/// follows it, and an underscore does not stand right after a letter or a digit.
pub open spec fn can_open(s: Seq<u8>, index: int, run: int, marker: u8) -> bool {
    &&& run != 0
    &&& index + run < s.len()
    &&& !is_ascii_space(s[index + run])
    &&& marker == 0x5f ==> !(index >= 1 && is_ascii_alnum(s[index - 1]))
}

/// Whether the run of markers at `index` can close emphasis: something other than a space
/// precedes it, and an underscore run is not followed by a letter or a digit.
pub open spec fn can_close(s: Seq<u8>, index: int, marker: u8) -> bool {
    &&& index >= 1
    &&& !is_ascii_space(s[index - 1])
    &&& marker == 0x5f ==> !(index + run_length(s, index, marker) < s.len() && is_ascii_alnum(
        s[index + run_length(s, index, marker)],
    ))
}

/// The run of exactly `count` markers that closes emphasis opened right before `from`, looked
/// for from `index` on: runs of another length are skipped whole, and a run cannot close at
/// `from` itself, which would leave the emphasis empty.
pub open spec fn closing_run(s: Seq<u8>, index: int, from: int, marker: u8, count: int) -> Option<
    int,
>
    decreases s.len() - index,
{
    if index < 0 || index >= s.len() {
        None
    } else if s[index] == marker {
        if run_length(s, index, marker) == count && index > from && can_close(s, index, marker) {
            Some(index)
        } else {
            proof {
                lemma_run_length_bounds(s, index, marker);
            }
            closing_run(s, index + run_length(s, index, marker), from, marker, count)
        }
    } else {
        closing_run(s, index + 1, from, marker, count)
    }
}

/// The level of a heading that starts the text: one to six `#` and a space.
pub open spec fn heading_of(s: Seq<u8>) -> Option<int> {
    let level = run_length(s, 0, 0x23) as int;
    if 1 <= level <= 6 && level < s.len() && s[level] == 0x20 {
        Some(level)
    } else {
        None
    }
}

/// A run of markers that starts inside the text ends inside it.
pub proof fn lemma_run_length_bounds(s: Seq<u8>, from: int, marker: u8)
    requires
        0 <= from,
    ensures
        from + run_length(s, from, marker) <= s.len() || run_length(s, from, marker) == 0,
        0 <= from < s.len() && s[from] == marker ==> run_length(s, from, marker) >= 1,
        forall|i: int|
            from <= i < from + run_length(s, from, marker) ==> #[trigger] s[i] == marker,
        from + run_length(s, from, marker) < s.len() ==> s[from + run_length(s, from, marker)]
            != marker,
    decreases s.len() - from,
{
    if 0 <= from < s.len() && s[from] == marker {
        lemma_run_length_bounds(s, from + 1, marker);
    }
}

/// A byte found by `first_index_of` is the byte asked for, at or after `from`, and the first one.
pub proof fn lemma_first_index_of(s: Seq<u8>, from: int, byte: u8)
    requires
        0 <= from,
    ensures
        first_index_of(s, from, byte) matches Some(i) ==> {
            &&& from <= i < s.len()
            &&& s[i] == byte
            &&& forall|j: int| from <= j < i ==> s[j] != byte
        },
        first_index_of(s, from, byte) is None ==> forall|j: int|
            from <= j < s.len() ==> s[j] != byte,
    decreases s.len() - from,
{
    if 0 <= from < s.len() && s[from] != byte {
        lemma_first_index_of(s, from + 1, byte);
    }
}

/// A closing run lies inside the text, after `from`, and is a run of `count` markers.
pub proof fn lemma_closing_run(s: Seq<u8>, index: int, from: int, marker: u8, count: int)
    requires
        0 <= index,
    ensures
        closing_run(s, index, from, marker, count) matches Some(e) ==> {
            &&& index <= e
            &&& from < e
            &&& e + count <= s.len()
            &&& run_length(s, e, marker) == count
        },
    decreases s.len() - index,
{
    if 0 <= index < s.len() {
        lemma_run_length_bounds(s, index, marker);
        if s[index] == marker {
            if run_length(s, index, marker) == count && index > from && can_close(
                s,
                index,
                marker,
            ) {
            } else {
                lemma_closing_run(s, index + run_length(s, index, marker), from, marker, count);
            }
        } else {
            lemma_closing_run(s, index + 1, from, marker, count);
        }
    }
}

/// Whether a run of markers starts at `p`, as the search from `from` meets runs: at `from`
/// itself, or after a byte that is not the marker.
pub open spec fn run_starts_at(s: Seq<u8>, p: int, from: int, marker: u8) -> bool {
    from <= p < s.len() && s[p] == marker && (p == from || s[p - 1] != marker)
}

/// Whether the run of markers at `p` closes emphasis opened right before `from` with `count`
/// markers: it is a run of exactly `count` markers that starts after `from` and can close.
pub open spec fn closes_at(s: Seq<u8>, p: int, from: int, marker: u8, count: int) -> bool {
    run_starts_at(s, p, from, marker) && run_length(s, p, marker) == count && p > from
        && can_close(s, p, marker)
}

/// The search for a closing run finds the first run that closes, or says that none does.
pub proof fn lemma_closing_run_first(s: Seq<u8>, index: int, from: int, marker: u8, count: int)
    requires
        0 <= from <= index,
        index == from || index > s.len() || s[index - 1] != marker || index >= s.len()
            || s[index] != marker,
    ensures
        closing_run(s, index, from, marker, count) matches Some(e) ==> closes_at(
            s,
            e,
            from,
            marker,
            count,
        ) && forall|p: int| index <= p < e ==> !#[trigger] closes_at(s, p, from, marker, count),
        closing_run(s, index, from, marker, count) is None ==> forall|p: int|
            index <= p < s.len() ==> !#[trigger] closes_at(s, p, from, marker, count),
    decreases s.len() - index,
{
    if index < s.len() {
        lemma_run_length_bounds(s, index, marker);
        if s[index] == marker {
            let r = run_length(s, index, marker) as int;
            if !(r == count && index > from && can_close(s, index, marker)) {
                lemma_closing_run_first(s, index + r, from, marker, count);
                assert forall|p: int| index < p < index + r implies !#[trigger] closes_at(
                    s,
                    p,
                    from,
                    marker,
                    count,
                ) by {
                    assert(s[p - 1] == marker);
                }
            }
        } else {
            lemma_closing_run_first(s, index + 1, from, marker, count);
        }
    }
}

/// A stretch of exactly `k` markers, followed by the end of the text or another byte, is a run
/// of length `k`.
pub proof fn lemma_run_length_exact(s: Seq<u8>, from: int, k: int, marker: u8)
    requires
        0 <= from,
        0 <= k,
        from + k <= s.len(),
        forall|i: int| from <= i < from + k ==> s[i] == marker,
        from + k == s.len() || s[from + k] != marker,
    ensures
        run_length(s, from, marker) == k,
    decreases k,
{
    if k > 0 {
        lemma_run_length_exact(s, from + 1, k - 1, marker);
    }
}

/// The heading level of a text: one to six `#` and a space make a heading of as many levels;
/// no `#`, or seven and more, make none.
pub proof fn lemma_heading_level_law(n: int, t: Seq<u8>)
    requires
        0 <= n,
    ensures
        ({
            let s = Seq::new(n as nat, |i: int| 0x23u8) + seq![0x20u8] + t;
            &&& 1 <= n <= 6 ==> heading_of(s) == Some(n)
            &&& (n == 0 || n > 6) ==> heading_of(s) is None
        }),
{
    let s = Seq::new(n as nat, |i: int| 0x23u8) + seq![0x20u8] + t;
    assert(s[n] == 0x20);
    assert forall|i: int| 0 <= i < n implies s[i] == 0x23 by {}
    lemma_run_length_exact(s, 0, n, 0x23);
}

/// Whether `u8::is_ascii_whitespace` holds of the byte.
fn ascii_space(b: u8) -> (r: bool)
    ensures
        r == is_ascii_space(b),
{
    b == 0x20 || b == 0x09 || b == 0x0a || b == 0x0c || b == 0x0d
}

/// Whether `u8::is_ascii_alphanumeric` holds of the byte.
fn ascii_alnum(b: u8) -> (r: bool)
    ensures
        r == is_ascii_alnum(b),
{
    (0x30 <= b && b <= 0x39) || (0x41 <= b && b <= 0x5a) || (0x61 <= b && b <= 0x7a)
}

/// The first index at or after `from` that holds `closing`.
pub fn find_closing(bytes: &[u8], from: usize, closing: u8) -> (r: Option<usize>)
    ensures
        r == (match first_index_of(bytes@, from as int, closing) {
            Some(i) => Some(i as usize),
            None => None::<usize>,
        }),
        match r {
            Some(i) => from <= i < bytes@.len() && bytes@[i as int] == closing && forall|j: int|
                from <= j < i ==> bytes@[j] != closing,
            None => forall|j: int| from <= j < bytes@.len() ==> bytes@[j] != closing,
        },
{
    proof {
        lemma_first_index_of(bytes@, from as int, closing);
    }
    let mut index = from;
    while index < bytes.len()
        invariant
            from <= index,
            first_index_of(bytes@, from as int, closing) == first_index_of(
                bytes@,
                index as int,
                closing,
            ),
        decreases bytes.len() - index,
    {
        if bytes[index] == closing {
            proof {
                lemma_first_index_of(bytes@, from as int, closing);
            }
            return Some(index);
        }
        index = index + 1;
    }
    None
}

/// The number of consecutive `marker` bytes that start at `from`.
pub fn marker_run(bytes: &[u8], from: usize, marker: u8) -> (r: usize)
    requires
        from <= bytes@.len(),
    ensures
        r == run_length(bytes@, from as int, marker),
        from + r <= bytes@.len(),
        forall|i: int| from <= i < from + r ==> #[trigger] bytes@[i] == marker,
        from + r < bytes@.len() ==> bytes@[from + r] != marker,
{
    proof {
        lemma_run_length_bounds(bytes@, from as int, marker);
    }
    let mut index = from;
    while index < bytes.len() && bytes[index] == marker
        invariant
            from <= index <= bytes@.len(),
            run_length(bytes@, from as int, marker) == (index - from) + run_length(
                bytes@,
                index as int,
                marker,
            ),
        decreases bytes.len() - index,
    {
        index = index + 1;
    }
    index - from
}

/// Whether the run of markers at `index` can open emphasis.
///
/// A marker followed by a space marks nothing (`a * b`), and `_` marks nothing inside a word, so
/// that `snake_case_names` in comments stay as they are.
pub fn opens_emphasis(bytes: &[u8], index: usize, run: usize, marker: u8) -> (r: bool)
    requires
        run != 0 ==> index + run <= usize::MAX,
    ensures
        r == can_open(bytes@, index as int, run as int, marker),
{
    if run == 0 {
        return false;
    }
    let after = index + run;
    if after >= bytes.len() || ascii_space(bytes[after]) {
        return false;
    }
    if marker == 0x5f && index >= 1 && ascii_alnum(bytes[index - 1]) {
        return false;
    }
    true
}

/// Whether the run of markers at `index` can close emphasis: `a *b * c` closes nothing.
pub fn closes_emphasis(bytes: &[u8], index: usize, marker: u8) -> (r: bool)
    requires
        index <= bytes@.len(),
    ensures
        r == can_close(bytes@, index as int, marker),
{
    if index == 0 || ascii_space(bytes[index - 1]) {
        return false;
    }
    if marker == 0x5f {
        proof {
            lemma_run_length_bounds(bytes@, index as int, marker);
        }
        let after = index + marker_run(bytes, index, marker);
        if after < bytes.len() && ascii_alnum(bytes[after]) {
            return false;
        }
    }
    true
}

/// Finds the run of `count` markers that closes the emphasis opened at `from`.
pub fn find_marker_run(bytes: &[u8], from: usize, marker: u8, count: usize) -> (r: Option<usize>)
    ensures
        r == (match closing_run(bytes@, from as int, from as int, marker, count as int) {
            Some(i) => Some(i as usize),
            None => None::<usize>,
        }),
        match r {
            Some(e) => closes_at(bytes@, e as int, from as int, marker, count as int) && forall|
                p: int,
            |
                from <= p < e ==> !#[trigger] closes_at(
                    bytes@,
                    p,
                    from as int,
                    marker,
                    count as int,
                ),
            None => forall|p: int|
                from <= p < bytes@.len() ==> !#[trigger] closes_at(
                    bytes@,
                    p,
                    from as int,
                    marker,
                    count as int,
                ),
        },
{
    proof {
        lemma_closing_run_first(bytes@, from as int, from as int, marker, count as int);
    }
    let mut index = from;
    while index < bytes.len()
        invariant
            from <= index,
            closing_run(bytes@, from as int, from as int, marker, count as int) == closing_run(
                bytes@,
                index as int,
                from as int,
                marker,
                count as int,
            ),
        decreases bytes.len() - index,
    {
        if bytes[index] == marker {
            proof {
                lemma_run_length_bounds(bytes@, index as int, marker);
            }
            let run = marker_run(bytes, index, marker);
            if run == count && index > from && closes_emphasis(bytes, index, marker) {
                proof {
                    lemma_closing_run_first(bytes@, from as int, from as int, marker, count as int);
                }
                return Some(index);
            }
            index = index + run;
        } else {
            index = index + 1;
        }
    }
    None
}

/// The level of the heading that starts `text`, if it starts with one: one to six `#` followed
/// by a space.
pub fn heading_level(text: &[u8]) -> (r: Option<usize>)
    ensures
        r == (match heading_of(text@) {
            Some(l) => Some(l as usize),
            None => None::<usize>,
        }),
{
    let level = marker_run(text, 0, 0x23);
    if 1 <= level && level <= 6 && level < text.len() && text[level] == 0x20 {
        Some(level)
    } else {
        None
    }
}

} // verus!
