# goal

A hierarchical goal tracker: goals form a tree, can be marked done, ranked
above one another, annotated, tagged and modified, and each of these changes
(tags aside) can be undone. The tracker's
logic is a Verus-verified library; a small command-line program keeps the
tables in a SQLite file.

## Layout

- `src/` — the verified library (crate `goal`)
  - `model.rs` — goals, annotations, history entries, errors and their views
  - `ids.rs` — goal ids (kind letter, depth code, random hex), event and
    annotation ids, deriving ids for a new kind or depth
  - `text.rs` — string helpers: ordering, prefix matching, UTF-8 byte counts
  - `sorting.rs` — stable ordering of rows by string keys
  - `graph.rs` — reachability along ranking edges
  - `priority.rs`, `priority_facts.rs` — the priority order and its properties
  - `store.rs` and `store/` — the tables and every operation on them: adding,
    marking done, ranking, annotations, tags, id lookup (`ops`), deleting a
    subtree (`delete`), modifying (`modify`), undo (`undo`), the log and the
    unranked pairs (`report`), facts about subtrees (`tree`)
  - `display.rs` — the printed tree (pending goals, siblings in priority
    order) and the log
  - `laws.rs` — properties across operations: what undo gives back, that
    ranking keeps the rankings acyclic, what the priority order lists and
    reads, how renaming moves rankings and aliases
- `tests/` — tests of the library on concrete values
- `app/` — the command-line program: argument parsing, the SQLite file, output

Run `goal add "learn rust"`, `goal list`, `goal done <id-prefix>`,
`goal modify <id> --parent <id>`, `goal delete <id>`, `goal undo`, `goal log`.
The data lives in the platform's data directory, or in `$GOAL_DATA_DIR`.
