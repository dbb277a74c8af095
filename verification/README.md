# newsletter_archive

The indexing core of a desktop archive of email newsletters, verified with Verus.

A newsletters folder holds `<label>/<email dir>/<files>`: `.html` bodies, optional
`.txt` bodies and `.md` sidecars with YAML front matter. The library decides what
that tree becomes in a SQLite + FTS5 index, and proves it:

- `text` — strings as sequences of characters: trimming, case-insensitive suffixes,
  code-point order and a verified sort.
- `frontmatter` — framing of a sidecar (`---` … `\n---`), lenient YAML scalars, dates.
- `scan` — one directory: which files are bodies, which sidecar each body belongs to,
  its message ID and its key `"<label>/<message_id>"`, with a location fallback.
- `walk` — the whole tree, sorted at every level, hidden names skipped.
- `state` — read/bookmark state carried across a re-index, by key then by location.
- `index`, `schema` — the rows written, the schema, progress reports, time stamps.
- `search` — user input turned into a safe FTS5 query with prefix matching.
- `emails` — list and count queries, and plain-text bodies escaped for the viewer.
- `laws` — properties spanning functions: keys scoped by label and unique across a
  scan, state that never crosses labels, results that do not depend on the order
  the file system lists entries in, escaping and query safety.

`app/` is the Tauri application around it: file and database I/O, commands, and the
serde and SQLite plumbing. Run the verifier on `src/lib.rs`; the tests under `tests/`
use the compiled library with rusqlite and serde_yaml.
