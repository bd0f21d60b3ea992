# Kedu Reader

The core of an offline e-book reader, written in Rust and verified with Verus. It opens EPUB,
Mobipocket (MOBI, AZW3), FB2, CBZ, Markdown and plain-text files, finds their tables of contents,
chapters, resources and covers, searches them, and keeps a shelf and reading statistics.

- `src/` is the library. Every function states what it does in its contract, over sequences of
  characters and bytes, and Verus proves it.
  - `parser/` holds one module for each format, `parser/session.rs` what they have in common, and
    `parser/contents.rs` what holds of every open book.
  - `commands/` holds what the views ask for: the shelf, statistics, search, covers, fonts.
  - `state.rs` keeps the open books and the chapters that were read; `routes.rs` answers requests
    for resources, covers and files; `windows.rs` and `launch.rs` decide on windows and arguments.
  - `archive.rs`, `xml.rs`, `regexes.rs`, `cleaning.rs`, `decoding.rs`, `transfer.rs`,
    `parser/markdown.rs`, `commands/fonts.rs`, `commands/summary.rs` and `commands/recording.rs`
    meet the outside crates. What they say of them is stated at each wrapper and not proved.
  - `folding.rs` states what folding the white space of a text keeps.
- `tests/` runs the library on small books made in memory.
- `app/` is the desktop program around it: files, JSON, fonts of the system, and the windows of
  Tauri. It holds what is a matter of floating point (progress, line height, reading speed).
