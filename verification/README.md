# wbook_core

The core of WBook, a tool that turns plain-text novels into structured
books: it decodes a text file, finds its table of contents with configurable
heading rules, filters advertisements, reads basic metadata, and keeps the
table of contents as an editable tree.

- `src/` is the library, written and proved with Verus: each public
  function states its result in its contract, as far as it is not left to
  an outside crate, a cancellation token or a parser a user supplies.
  - `text` — characters, lines and UTF-8 offsets of the decoded text.
  - `extractor` — encoding detection (byte order mark, then chardetng) and
    decoding (encoding_rs).
  - `parser` — the parser traits, the best-match combination, the ad filter
    and the metadata parser; `parser::toc` holds the heading rules, presets,
    the level-rule, VBook and even-split TOC parsers.
  - `toc` — the TOC tree over a slab, its builder from level events, and its
    snapshot form.
  - `types` — text ranges and text operators.
  - `pattern`, `paths`, `cancel` — the calls into regex, camino, str-utils
    and tokio-util, with the contracts the library relies on.
- `app/` holds what needs the file system, the clock or serde: reading a
  file, the system encoding, JSON forms of the library's types, sessions.
- `tests/` exercises the library on concrete inputs.
