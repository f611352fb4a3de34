# stepflow_execution

The execution-state core of a workflow engine, verified with Verus.

A flow is a list of steps whose inputs are expressions over the item's input,
run variables and other steps' results. Executing a batch of items means
tracking, per item, which steps are needed, which wait for which, which have
completed with which result; handing ready tasks to a scheduler; journaling
what happened; and, after a restart, rebuilding the same state from a
checkpoint and the journal.

## Layout

- `src/` — the verified library.
  - `flow`, `step_index`, `deps`: the flow model, step lookup by id, and
    dependency discovery as reachability over step references.
  - `item_state`, `items_state`: per-item and per-batch execution state, with
    their views and invariants.
  - `task`, `task_queue`, `scheduler`, `breadth_first`, `depth_first`,
    `decision`: tasks and the two scheduling orders.
  - `resolve`, `step_runner`: resolving value expressions (field paths such
    as `$.user.name`, skip actions, objects and arrays) and what a step's
    error action makes of its result.
  - `journal`, `run_state`, `replay`, `checkpoint`, `checkpointer`,
    `recovery`: journal records, per-run state and its replay (from the
    start of the journal, or from a checkpoint and the records after it),
    checkpoints and the decisions of recovery.
  - `execution`, `flow_executor`, `debug_executor`, `debug_history`: the
    decisions of the execution loop and of interactive debugging.
  - `laws`: properties that relate several operations.
  - `bitset`, `json`: the contracts under which the library calls
    `bit_set` and `serde_json`.
- `tests/` — tests of the library on concrete values.
- `app/` — unverified glue: MessagePack and JSON encodings, UUID run ids, a
  synchronous execution loop, and recovery from stored checkpoints and
  journals with the metadata-store updates that replay calls for.

Static validation of a flow before it runs (the analysis that
`FlowExecutorBuilder` would invoke) is not part of this library: the builder
accepts the flow as given.
