# gpui-editor

The editing core of a multi-line textarea, verified with Verus.

- `src/buffer.rs`: `TextBuffer`, a line-based text store with positions
  (line, byte column); insert, delete, replace, reading ranges, and cursor
  movement by grapheme cluster, word and line. Its view is the sequence of
  the lines' UTF-8 bytes.
- `src/clusters.rs`: walking grapheme cluster start offsets given as an
  argument: the start before or after an offset, snapping to the nearest
  boundary, and how much of a text fits under a cluster limit.
- `src/cursor.rs`: `Cursor`, a caret with an anchor for the selection and a
  preferred column for vertical moves.
- `src/textarea.rs`: the editing state of the text input widget (content,
  selection, IME marked range, maximum length, Enter mode) and what each
  editing action and IME request does to it, with UTF-8/UTF-16 offset
  conversion.
- `src/layout.rs`: the integer side of painting: line start offsets, styled
  runs around the marked range, and the part of each line a selection covers.
- `src/edit_laws.rs`: laws that relate the buffer's operations to each other.
- `src/lines.rs`, `src/text.rs`: the byte-level model (lines joined by and
  split at newlines; UTF-8 splitting and concatenation).
- `src/segmentation.rs`: the trusted boundary to `unicode-segmentation`
  (grapheme cluster offsets) and `str::trim` (stated exactly: it removes
  White_Space characters from both ends).

`app/` holds the gpui widget around the verified state: rendering, pixel
geometry, focus, clipboard, the caret blink timer and key bindings.
