# studio_core

The core of VersaTiles Studio as a verified library: the VPL grammar, parser and printer, documents
and their structural edits, validation positions and near-miss suggestions, the job registry, undo
history, recents, graph naming, bundle planning, import catalogue, export and estimate decisions,
tile inspection and the rest of the logic that needs no I/O.

- `src/` is verified with Verus. Calls into upstream crates (`versatiles_pipeline`,
  `versatiles_geometry`, `serde_json`, `sha2`) go through a few trusted wrappers whose contracts say
  what the upstream source shows, or name a result that depends on the arguments alone.
- `tests/` runs the library with the real upstream crates linked.
- `app/` holds what touches the disk: saving and opening files and reading what the library is
  then handed as plain values.
