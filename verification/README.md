# Hanji

The text-editing core of Hanji, a local-first Markdown editor, verified with Verus.

Every offset is a byte offset into the UTF-8 source of a document. The library keeps
the source, its selections and its undo history, applies edits and commands, and runs
the Markdown typing policy (marker autocompletion and skipping, fenced code blocks,
list and block-quote continuation, list indentation). It also holds the pure parts of
the desktop frontends: the preview's list markers and link destinations, caret mapping
between source and rendered text, table-cell lookup, the file browser's labels and
order, link opening, and calendar dates for "last edited" labels.

## Layout

- `src/` — the verified library. `text`, `selection`, `transaction`, `document`,
  `command`, `encoding` and `segmentation` are the editing primitives; `editing`,
  `lists` and `list_editing` the Markdown policy; `editor` the facade that frontends
  use; `preview`, `snapshot`, `file_browser`, `external`, `session` and `time_label`
  the frontend logic. Functions whose names start with `law_` state properties that
  span several operations.
- `tests/` — tests of the library on concrete values.
- `app/` — a terminal frontend: file-system and clock access, opening links, and the
  editor error with `Display`.

The rendered WYSIWYG view, the editor's `execute` of Markdown commands and its
selected-source lookups rest on the `hanji_markdown` crate, whose source is not part of
this project; they are not here.
