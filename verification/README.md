# quill

A Markdown scanner for live-styled editing, written in Verus: `&str` in,
styled spans and hideable syntax markers out, everything in character
offsets. Besides what is styled, it reports exactly which characters are
syntax, so an editor can hide them everywhere except in the construct that
holds the caret.

Every function carries a contract over a mathematical model of the scan, and
Verus proves the code against it.

## Layout

- `types.rs`: styles, spans, markers, line states and the list-nesting stack.
- `text.rs`: character-level helpers (search, trimming, case folding,
  Unicode whitespace and letter classes).
- `inline.rs`: emphasis, code, links, wikilinks, embeds, URLs and tags within
  one line.
- `block.rs`: headings, quotes, list items, checkboxes, fences, rules,
  tables and frontmatter; one line at a time.
- `note.rs`: `parse` for a whole note and `scan_line` for one line.
- `snippet.rs`: `strip`, the note as plain prose.
- `links.rs`: `extract` (wikilinks, embeds and tags) and `rewrite_target`
  (repointing links when a note is renamed).
- `lists.rs`: `list_enter` (what Return inserts in a list) and `renumber`.
- `format.rs`: the formatting actions and the syntax each one writes.
- `laws.rs`, `agreement.rs`, `apart.rs`: what holds of every scan: spans and
  markers stay within the note and in order, levels stay in range, scanning
  line by line agrees with scanning the note (list stacks included),
  styling never crosses a line break, frontmatter runs only from the top to
  its closing line, and links never overlap and keep to their brackets.
- `settle.rs`: renumbering settles once its edits are applied, and touches
  only item numbers.
- `shift.rs`: scanning a line is offset-independent.
- `written.rs`: every formatting action writes syntax the scanner styles.

## Tests

`tests/` holds the scenarios: the scanner's behaviour on concrete notes, the
formatting actions, renaming, and a concrete case of each law.
