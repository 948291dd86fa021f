# mr-guile-lsp-server

A Language Server Protocol server for GNU Guile 3.0, for the Helix editor. A
thin Rust shell speaks LSP and keeps the open documents; a Guile REPL
subprocess running Geiser's modules answers the semantic questions
(completions, documentation, signatures, definition sites, compiler
diagnostics).

## Layout

- `src/` — the library, written in Verus and verified:
  - `position` — LSP positions (line, UTF-8 byte column) to byte offsets and
    back, with the round-trip laws;
  - `encoding` — UTF-8 decoding of byte ranges;
  - `text` — the symbol under the cursor, the call around it, top-level
    `(define …)` forms, definitions and references of a symbol;
  - `parser` — the reader for the REPL's `write`-formatted replies;
  - `guile` — the reply framing (lines up to the `%%LSP-DONE%%` sentinel) and
    the REPL errors;
  - `diagnostics` — Guile compiler warnings and errors as diagnostics;
  - `documents` — the store of open documents;
  - `scheduler` — the debounce generations that coalesce bursts of edits;
  - `backend` — the requests sent to the REPL, how replies are read, the
    workspace walk and the workspace-symbol filter.
- `app/` — the server binary: the `tower-lsp` handlers, the Guile process,
  timers and the file system, calling into the library.
- `tests/` — tests of the library.

The scanners take texts of at most `i32::MAX` bytes (their nesting depths are
`i32`); `text::text_within_limits` tells whether a text qualifies.
