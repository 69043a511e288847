# Neutrasearch

Filename and folder search over native filesystem metadata, with a library whose logic is
proved with Verus.

- `src/` is the library. Its public functions state what they return or change, and Verus
  proves it of all code but the few trusted calls below.
  - Searching: `query`, `rank`, `index`, `search_laws`.
  - The compressed index and its log: `compact`, `compact_index`, `compact_laws`, `delta`,
    `store`, `trigram`, `varint`, `pack`, `checksum`, `codec`.
  - Folder totals: `summary`, `sidecar`, `dir_summary`, `overlay`, `treemap`.
  - Lanes: `btrfs`, `ext4`, `ntfs`, `zfs`, `macos`, `lanes`, `mounts`, `watch`.
  - The helper, the window, the command line and servers: `proto`, `requests`, `service`,
    `desktop`, `display`, `launch`, `terminal`, `client`, `mcp`, `remote`, `windows`.
  - Paths as each system reads them, and the clock: `host`, `files`, `paths`, `dirs`, `clock`.
- `app/` is the program around it: files, processes, kernel calls, JSON answers and drawing.
- `tests/` runs the library on concrete values.

What the library promises as a whole is stated in the proof functions whose names begin with
`law_`. What it takes on trust stands behind small functions that call `crc32fast`, `sha2`,
`zstd`, `regex`, `bincode`, `serde_json`, the standard library's Unicode tables and its clock;
each says in its comment what is claimed of the call.
