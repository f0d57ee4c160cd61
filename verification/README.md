# crust

A pane-based terminal UI library: ANSI colours, scrolling panes with
borders and scroll markers, diff-based rendering, popups (viewer and
menu), a single-line editor with history, a message log, Markdown tables
drawn as Unicode boxes, and the cleanup of Wikipedia plain-text extracts.

The library decides what the terminal is sent and is verified with Verus:
every public function states what it returns or changes. Writing to the
terminal and reading keys is done around it.

Layout:

- `src/` — the verified library.
  - `lib.rs` — escape stripping, display width, truncation, base64,
    shell escaping, the OSC 52 clipboard request, terminal sequences.
  - `chars.rs` — character-level building blocks and the `unicode-width`
    calls.
  - `style.rs` — colour and attribute sequences, hex colours, xterm-256.
  - `pane.rs` — the pane: wrapping, alignment, rendering, scrolling.
  - `editline.rs` — the line editor, one key at a time.
  - `popup.rs` — viewer and menu popups, one key at a time.
  - `msglog.rs` — the message log.
  - `input.rs` — key names.
  - `cursor.rs` — cursor sequences.
  - `text.rs` — Markdown tables and Wikipedia extract cleanup.
- `tests/` — tests of the library.
- `app/` — the terminal around it: raw mode, key reading with
  `crossterm`, writing pane output, the key loops of the editor and popups.
