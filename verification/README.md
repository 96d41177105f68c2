# bookokrat

A terminal EPUB reader whose core is verified with Verus.

- `src/` — the verified library: the comment store (`comments`), MathML to
  text art (`mathml`), the chapter document model and its rendering into
  reader lines (`markdown`, `rendering`, `document`, `chapter`), code blocks
  with inline comments (`code_block`), the reader's selections, margins and
  comment editing (`reader`), its viewport (`viewport`), themes (`theme`),
  and the popups (`widget`).
- `tests/` — tests of the library.
- `app/` — the terminal program around it: reading the EPUB and the settings
  and comment files, keys and mouse, and drawing with ratatui.
