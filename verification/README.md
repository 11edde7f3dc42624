# workflow_engine

A workflow engine that routes an instance through the nodes of a workflow
definition (`flow.json`), keeps the instance's state, progress chart and execution
trace in `process.md`, logs every command to `trace.jsonl`, and answers queries over
the artifacts each execution left behind. The engine is written in Verus: every
function of the library carries a contract and is proved against it.

## Layout

- `src/` — the verified library.
  - `model.rs`, `graph.rs` — the workflow definition and routing between nodes.
  - `state.rs` — instance state, the execution trace, the trace table and the text of
    `process.md`, and the trace rebuilt from `trace.jsonl`.
  - `executor.rs` — what each command (`next`, `complete`, `fail`, `choose`) decides,
    the progress chart, and the listings.
  - `machine.rs` — the instance as a state machine, and what every command keeps.
  - `limits.rs`, `instance.rs` — the three limits, and a new instance.
  - `artifact.rs`, `artifact_query.rs` — where artifacts live, and listing, viewing,
    searching, the timeline and the line diff.
  - `clock.rs` — identifiers and timestamps from the local clock (via `chrono`).
  - `text.rs`, `find.rs`, `order.rs` — text, search and ordering primitives.
- `tests/` — tests of the library.
- `app/` — the `workflow` command: arguments (`clap`), files, YAML and JSON (`serde`).
