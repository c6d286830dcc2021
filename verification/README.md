# mdreader

A light, native Markdown reader. The library (`src/`) holds what the reader
decides, verified with Verus; `app/` is the window around it (egui/eframe,
file dialog, file watcher).

- `src/toc.rs` — table of contents: ATX headings outside fenced code, their
  anchor slugs, and the document text with a `{#slug}` anchor written into
  each heading line that has none.
- `src/toc_laws.rs` — what processing guarantees over a whole document: lines
  kept, code blocks untouched, each slug written as its heading's anchor,
  no two headings with the same slug when the document's explicit ids are
  distinct, and the same headings when the output is processed again.
- `src/slug.rs` — slugs of heading text.
- `src/registry.rs` — the slugs taken in a document, and numbering of a
  slug already taken.
- `src/text.rs` — trimming, line splitting and joining, decimal numerals.
- `src/chars.rs` — Unicode character predicates and string conversions.
- `src/reader.rs` — theme, file labels, the size limit and outcome of opening
  a file, keyboard shortcuts, and which file events call for a reload.
