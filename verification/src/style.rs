use vstd::prelude::*;

verus! {

/// The bit of bold text.
pub const BOLD: u8 = 1;

/// The bit of italic text.
pub const ITALIC: u8 = 2;

/// The bit of a code span.
pub const CODE: u8 = 4;

/// The bit of the text of a link.
pub const LINK: u8 = 8;

/// The bit of the text of a heading.
pub const HEADING: u8 = 16;

/// The markup that applies to a range of a comment. Markup nests, so a range can carry several
/// kinds at once: each kind is one bit of the value (`BOLD`, `ITALIC`, `CODE`, `LINK`,
/// `HEADING`).
#[derive(Debug, Clone, Copy, PartialEq, Eq, Structural, Hash, PartialOrd, Ord)]
pub struct MarkdownCommentStyle(pub u8);

/// Whether the bits of `outer` are all set in `inner`.
pub open spec fn has_bits(inner: u8, outer: u8) -> bool {
    inner & outer == outer
}

impl Default for MarkdownCommentStyle {
    /// No markup at all.
    fn default() -> (r: Self)
        ensures
            r.0 == 0,
    {
        MarkdownCommentStyle(0)
    }
}

impl MarkdownCommentStyle {
    /// The markup that carries the kinds of both.
    pub fn with(self, other: Self) -> (r: Self)
        ensures
            r.0 == self.0 | other.0,
    {
        MarkdownCommentStyle(self.0 | other.0)
    }

    /// Whether every kind of `other` is one of `self`.
    pub fn contains(self, other: Self) -> (r: bool)
        ensures
            r == has_bits(self.0, other.0),
    {
        self.0 & other.0 == other.0
    }

    /// Whether no kind of markup applies.
    pub fn is_empty(self) -> (r: bool)
        ensures
            r == (self.0 == 0),
    {
        self.0 == 0
    }
}

/// A color of the theme that a markup is drawn in.
#[derive(Debug, Clone, Copy, PartialEq, Eq, Structural)]
pub enum ThemeColor {
    /// The color of text.
    Text,
    /// The background of an element.
    ElementBackground,
    /// The color of a link under the pointer.
    LinkTextHover,
}

/// How a markup is drawn: what `HighlightStyle` it sets, with the colors named by their place
/// in the theme.
#[derive(Debug, Clone, Copy, PartialEq, Eq, Structural)]
pub struct HighlightAttributes {
    /// Bold font weight.
    pub bold: bool,
    /// Italic font style.
    pub italic: bool,
    /// The color of the text, when the markup sets one.
    pub color: Option<ThemeColor>,
    /// The background color, when the markup sets one.
    pub background: Option<ThemeColor>,
    /// An underline one pixel thick.
    pub underline: bool,
}

impl MarkdownCommentStyle {
    /// How this markup is drawn: bold and headings in bold; italic in italic; headings and code in
    /// the text color, code on the element background; links in the link color, underlined. A
    /// link's color wins over the others.
    pub fn highlight_style(self) -> (r: HighlightAttributes)
        ensures
            r.bold == (has_bits(self.0, BOLD) || has_bits(self.0, HEADING)),
            r.italic == has_bits(self.0, ITALIC),
            r.color == (if has_bits(self.0, LINK) {
                Some(ThemeColor::LinkTextHover)
            } else if has_bits(self.0, CODE) || has_bits(self.0, HEADING) {
                Some(ThemeColor::Text)
            } else {
                None
            }),
            r.background == (if has_bits(self.0, CODE) {
                Some(ThemeColor::ElementBackground)
            } else {
                None
            }),
            r.underline == has_bits(self.0, LINK),
    {
        let mut style = HighlightAttributes {
            bold: false,
            italic: false,
            color: None,
            background: None,
            underline: false,
        };
        if self.contains(MarkdownCommentStyle(BOLD)) || self.contains(MarkdownCommentStyle(HEADING)) {
            style.bold = true;
        }
        if self.contains(MarkdownCommentStyle(ITALIC)) {
            style.italic = true;
        }
        if self.contains(MarkdownCommentStyle(HEADING)) {
            style.color = Some(ThemeColor::Text);
        }
        if self.contains(MarkdownCommentStyle(CODE)) {
            style.background = Some(ThemeColor::ElementBackground);
            style.color = Some(ThemeColor::Text);
        }
        if self.contains(MarkdownCommentStyle(LINK)) {
            style.color = Some(ThemeColor::LinkTextHover);
            style.underline = true;
        }
        style
    }
}

/// Adding markup keeps every kind already there, and every kind added: a range under nested
/// markers carries the markup of each of them.
pub proof fn lemma_with_keeps_both(a: u8, b: u8)
    ensures
        has_bits(a | b, a),
        has_bits(a | b, b),
{
    assert((a | b) & a == a) by (bit_vector);
    assert((a | b) & b == b) by (bit_vector);
}

/// Markup that carries all kinds of `a | b` carries those of `a`.
pub proof fn lemma_has_bits_weaken(c: u8, a: u8, b: u8)
    requires
        has_bits(c, a | b),
    ensures
        has_bits(c, a),
{
    assert(c & (a | b) == (a | b) ==> c & a == a) by (bit_vector);
}

/// Adding markup to markup that carries some kind never yields markup without any.
pub proof fn lemma_with_not_empty(a: u8, b: u8)
    requires
        a != 0,
    ensures
        a | b != 0,
{
    assert(a != 0 ==> a | b != 0) by (bit_vector);
}

/// Markup carries all of its own kinds.
pub proof fn lemma_has_bits_refl(a: u8)
    ensures
        has_bits(a, a),
{
    assert(a & a == a) by (bit_vector);
}

/// Markup that carries every kind of some markup that carries a kind carries a kind itself.
pub proof fn lemma_has_bits_not_empty(a: u8, outer: u8)
    requires
        has_bits(a, outer),
        outer != 0,
    ensures
        a != 0,
{
    assert(a & outer == outer && outer != 0 ==> a != 0) by (bit_vector);
}

} // verus!
