# vault_write

A verified library for a notes vault: sessions stored as plain files
(`sessions/<id>/_meta.json`, notes and enhanced documents in Markdown,
`transcript.json`, tasks, attachments, recordings), mirrored by an in-memory
index.

`src/` holds the logic with its contracts, proved by Verus:

- `paths`, `files`, `layout`, `sync`: which paths, names and directories are
  safe or canonical, and the startup layout migration plan.
- `meta`, `enhanced`, `tasks`, `people`, `tags`, `summary`: the edits each
  file kind accepts, with their conflict and validation errors.
- `index`, `rebuild`, `stats`: the index, its change events, the rescan that
  reconciles it with the files, and the vault statistics.
- `transcript`, `recording`, `language`: the live transcript buffer, the
  speaker-assignment rules, recording reservations, and spoken-language
  resolution.
- `journal`, `digest`, `storage`, `deletions`: the write journal of content
  hashes, the storage report, and the sessions deleted in this process.

`app/` is the unverified shell around it: file I/O, the async write lock, the
debounced flusher, speaker assignment, the storage walk, the statistics pass,
legacy-template archiving, and the serde shapes sent to the frontend. It is
not the whole store: rebuild and refresh, summary migration, delete and
restore, batch transcript replacement, attachments and audio import read and
write the vault through the format crates of the wider application, which
this repository does not hold, so their I/O side is not here; their decisions
are in `src/`. `tests/` exercises the library on concrete values.
