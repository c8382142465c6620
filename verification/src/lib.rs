//! Renders the Markdown that comments are written in.
//!
//! The comment delimiters stay as they are, and so does every other byte of the buffer: the
//! text keeps its position, the inline markers are concealed, and the text they mark gets the
//! matching style. Markup nests, so ``**_`term`_**`` is bold, italic and code at once. The
//! comment block that holds a cursor keeps its markers, so it reads as its own source while it
//! is edited.
//!
//! Modules:
//! - `style`: the set of markups that applies to a range, and how it is drawn;
//! - `spans`: the ranges to style, grouped per combination of markup, and the ranges to conceal;
//! - `markers`: the byte-level rules for where a marker opens and closes markup;
//! - `inline`: the inline Markdown parser of one comment text;
//! - `comment`: one comment row: where its text starts after the delimiter, and its marks;
//! - `buffer`: the rows of a buffer, its blocks of comment rows, and the spans of the blocks
//!   that no cursor is in;
//! - `editor`: the state an editor keeps for the feature, what a refresh and a toggle change,
//!   and what is drawn when the rendering is off;
//! - `drawn`: what the marks add to spans: nothing moves, and the ranges added lie where the
//!   marks lie, on character boundaries, and never overlap (across a buffer, for rows that lie
//!   one after the other).
//!
//! Reading the buffer, the selections and the settings, highlighting and folding are the
//! editor's own work: it hands the library rows, cursor rows and the setting as plain values, and
//! draws the spans it gets back.

pub mod style;
pub mod markers;
pub mod spans;
pub mod inline;
pub mod comment;
pub mod buffer;
pub mod editor;
pub mod drawn;
