# shirube

TODO/FIXME/HACK comment highlighter and navigator for Neovim, with its
recognition logic verified in Verus.

- `src/keywords.rs`: the keyword vocabulary (names, colours, highlight
  groups, sign texts) and `Keyword::match_at`, which recognises a keyword
  tag at the start of a text, ignoring ASCII case.
- `src/scanner.rs`: `scan_line`, which finds the places in a line where a
  keyword may begin (the start of the text, after a comment leader, after an
  opening `"`) and reports the keywords found there.
- `src/highlight.rs`: the extmarks to place for a buffer's lines and the
  TODO list entries of a named buffer.
- `src/text.rs`: predicates on text: ASCII case and whitespace, Unicode
  white space, and facts about UTF-8 encoding.
- `app/`: the Neovim side (plugin entry point, reading buffers, placing
  extmarks, defining highlight groups through `tane`), built on `nvim-oxi`.

Each public function states its result exactly over a model of the line's
UTF-8 bytes; the properties of the scanner (soundness of each match,
distinct offsets, where keywords can stand, which positions are reported)
are proved as lemmas beside it.
