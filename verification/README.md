# Markdown in comments

A verified library that finds the inline Markdown of source comments (headings, code spans,
emphasis, links) and says which byte ranges of the buffer to style, with which combination of
markup, and which marker ranges to conceal. The comment block that holds a cursor is left as
its source.

Layout:

- `src/style.rs`: the markup bits, their algebra, and how each combination is drawn;
- `src/spans.rs`: the ranges to draw, grouped per markup, with their model and well-formedness;
- `src/markers.rs`: where a marker run opens and closes emphasis, code spans, links, headings;
- `src/inline.rs`: the parser of one comment text, its specification, and the laws of its
  marks (in order, tiling the text under markup, nested markup adding to the outer one);
- `src/comment.rs`: where the text of a comment row starts after its delimiter;
- `src/buffer.rs`: comment blocks of a buffer and the spans of the blocks without a cursor;
- `src/editor.rs`: the per-editor toggle, the refresh against the buffer (it waits outside a
  full editor and during a selection; nothing is drawn when the rendering is off or the editor
  shows more than one buffer), the debounce of a cursor move, and what a refresh and a toggle
  change;
- `src/drawn.rs`: what the marks add to spans: old ranges stay in place, new ones lie in the
  text on character boundaries, cover it under markup, and never overlap; across a whole
  buffer too, for rows that lie one after the other in it, as the rows of a buffer do.

The tests under `tests/` run the library on concrete comments and buffers.
