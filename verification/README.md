# Javelin

Local version control for people and coding agents. A World is a line of
immutable accepted versions; work happens in Private Layers, whose views are
saved as Checkpoints on their own, and reaches the World through Publish, after
it was integrated with the latest accepted state and has met the World Rules.

The library is verified with Verus: every operation on the store says in its
contract what it returns and what it changes.

## Layout

- `src/text.rs`, `search.rs`, `bytes.rs`, `ordered.rs`, `tables.rs`, `json.rs`:
  texts, bytes, ordered maps, rows and JSON values, with their models.
- `src/model.rs`, `records.rs`, `error.rs`, `report.rs`: trees, Layers and the
  other records, errors, and the JSON that is shown of them.
- `src/paths.rs`, `globs.rs`, `config.rs`: paths that a tree may hold, patterns,
  settings and the tracking policy.
- `src/objects.rs`, `files.rs`: object identities, object files, encoded trees.
- `src/scan.rs`, `view.rs`, `materialize.rs`, `integration.rs`: from views to
  trees and back, differences, and the integration of three states.
- `src/store.rs` and `src/store/`: the store as a state machine, with the laws
  that span its operations in `laws.rs`.
- `src/commands.rs` and `src/commands/`: what each command decides, and what it
  shows and says.
- `src/clock.rs`, `process.rs`, `cli.rs`: time and fresh identities, processes,
  the command line.
- `app/`: the program around the library, with its files, processes, locks and
  SQLite database.

Operations that need a time or a fresh identity come in two forms: `..._at`
takes them as arguments, and the other asks the clock. Where a span is counted
from the present, `..._for` takes the span and the present.
