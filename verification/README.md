# Rapid View and Markview

The verified core of two native macOS viewers, and the AppKit programs
around it.

- **Rapid View** shows JSON and XML. A click anywhere gives the jq path or
  the XPath that leads there; the sub-tree can be copied; a document can be
  prettified and searched. The library also parses CSV and lays it out as a
  table, with `xsv` pipelines as paths; opening a file does not use that yet.
- **Markview** shows markdown, rendered or as colored source.

## Layout

- `src/` is the library `rapid_view`: parsers, prettifiers, path
  expressions, table layout, search, and the state of the views and
  windows, with contracts that Verus proves.
  - `format/` holds one module per format, the shared index types, and the
    laws of each grammar (`*_laws.rs`, `json_subtree.rs`,
    `json_reparse.rs`, `nesting.rs`).
  - `markdown_core.rs`, `markdown_laws.rs` and `markview/` are the markdown
    side.
  - `doc.rs`, `doc_view.rs`, `json_view.rs`, `search.rs`, `columns.rs` and
    `window.rs` are the viewer side.
  - `text.rs` and `doc.rs` also hold the few functions whose contracts are
    trusted: UTF-8 conversion and `String::push` from the standard library,
    and the bytes of a `memmap2::Mmap`.
- `tests/` runs the library on concrete documents.
- `app/` is ordinary Rust: windows, drawing, worker threads, file access.
  It needs macOS.
