# document_workbench

The logic of a document workbench panel for a terminal: a small text editor over a
UTF-8 buffer with a byte-offset cursor, Markdown / HTML / plain-text previews, the
discovery of documents below a working directory (recent files, `git status` output and
a bounded directory walk), the checks a path must pass before it is read or written,
and the panel's layout and click handling.

Everything under `src/` is verified with Verus: each public function states in its
contract what it returns or how it changes the state, and `src/laws.rs` (with
`law_view_cycle` in `src/model.rs`) proves the properties that span several functions.

- `text`, `cursor`: UTF-8 widths and byte offsets, char boundaries, line starts and ends.
- `preview`: line splitting, trimming, the Markdown and HTML previews, truncation, wrapping.
- `paths`, `order`: Unix path components, extensions and document kinds, the path order.
- `keys`, `state`: key bindings and the editor / panel state machine.
- `discovery`, `walk`: recent-list upkeep, path validation from gathered file facts,
  candidate merging, `git status` parsing, the directory walk and its final selection.
- `panel`: panel geometry, rows and hits.

`app/` holds what touches the file system, processes and serialisation: it gathers
file facts, reads directories for the walk, runs `git`, and stores settings and recents
as JSON, handing plain values to the library and back.
