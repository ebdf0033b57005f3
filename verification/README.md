# beatcrate

BeatCrate keeps a producer's beat library: each folder under the Music Folder
is a crate, each audio file in it a track, and the library stays in sync with
the disk as folders are renamed, files re-exported, moved or deleted. It also
indexes Ableton Live Sets (tempo, key, time signature, active tracks, plugins,
samples) for the Career Arc insights.

The library (`src/`) is verified with Verus:

- `title` — track titles from file names (Beat-A-Day prefixes, track numbers).
- `scan` — a crate folder's scan from its listing (cover, sorted audio files).
- `library` — the stored crates and tracks as a model, and the ingest rules:
  folder renames, file renames and moves, re-exports, grace-window pruning.
- `changes` — the rows an ingest deleted, inserted or updated.
- `xml`, `als` — a Live Set's XML tree as plain records and what is read off it.
- `commands`, `profile`, `analysis`, `storage` — the rules of the command
  surface, avatar uploads, the loudness job, and the database location.
- `laws` — the properties stated across operations, proved.
- `text` — string helpers shared by the above.

`app/` is the program around it: SQLite, the file system, the folder watcher,
audio decoding and loudness measurement, and the command dispatcher.
