# glyphr

A fuzzy picker for Nerd Font glyphs, with its logic verified by Verus.

- `src/` is the verified library:
  - `text.rs`: white space, trimming, ASCII case folding, hexadecimal and
    decimal numerals, UTF-8 byte lengths and character boundaries.
  - `glyph.rs`: the glyph model, and the icon set and search alias derived
    from a canonical `nf-` name.
  - `matcher.rs`: `set>needle` queries, the set-prefix filter, the best score
    of a glyph and the order of the hits; the fuzzy scores come from
    `nucleo-matcher`.
  - `app.rs`: the picker's state machine (query, list, cursor, scroll, output
    mode) and what a selected glyph is rendered to.
  - `ui.rs`: the texts the picker shows and the visible window of the list.
  - `upstream.rs`: reading the upstream glyph table (serde_json) and
    normalising it into snapshot entries.
- `app/` is the program around it: the terminal loop (crossterm, ratatui),
  the clipboard, the embedded rkyv snapshot, and the `gen-snapshot` tool
  (arguments, curl, files, rkyv).
- `tests/` exercises the library on concrete values.
