# MDTree

A verified engine for trees of Markdown nodes kept in relational tables, with a
small web front end.

- `src/` is the library. `SqliteStore` holds the tables of one workspace: nodes,
  revisions, references, sections, search documents and receipts. Reads, pages,
  mutations, batches, clones, snapshots, diagnostics, search and the semantic index
  are functions over it. Every function states what it returns and how it changes
  the tables. `laws.rs`, `batch_laws.rs`, `read_laws.rs`, `page_laws.rs`, `run_laws.rs`,
  `route_laws.rs`, `revision_laws.rs` and `snapshot_laws.rs` hold what spans several
  operations: the tree stays a tree, stale writers are refused, reads give back what was
  written, a run of pages enumerates its listing once, and the import of an exported
  workspace succeeds and gives back its nodes and its history.
- `src/` also decides for the web server: the search box, highlights and rendering,
  commands, the realtime protocol, sessions and addresses.
- `app/` reads and writes the database file in one transaction per change, computes
  scores, and runs the server. Hashing, slugs and the derivation of sections come in
  through its `Domain` trait.
- `tests/` exercises the library from outside.
