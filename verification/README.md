# unique_files

Copies the files of one or more source folders into a target folder, each
distinct content copied at most once and never when the target already
holds it; a file whose name is
taken gets a numbered name (`photo (1).jpg`, `photo (2).jpg`, ...).

- `src/` — the verified library (Verus):
  - `digest.rs`: content keys (lower-case hex SHA-256 through the `sha2` crate);
  - `paths.rs`: byte-level path pieces and the numbered names;
  - `file_index.rs`: the record of contents present in the target;
  - `files_map.rs`: the target and source folders, the copy decisions, file counts;
  - `progress.rs`: what the window shows as progress messages arrive;
  - `source_list.rs`: which source folders may be added, when a run may start.
- `app/` — the program: folder walks, file reads and copies, logging, the
  command line and the Qt window.
- `tests/` — tests of the library.
