# majin

A terminal agent harness. Its domain state lives in a `World` of entity tables: capabilities
(Provider, Model, tools, Agent), Sessions as trees of Turns, the messages and work of each Turn,
and the cameras that project a branch into a transcript or a provider context.

`src/` is the library, with its specifications and proofs:

- `world`, `ids`: the tables, entity handles, and the stable identity allocator.
- `harness`: the commands (submit a prompt, select a Session or branch, interrupt a Turn).
- `camera`, `context`, `order`: transcript and context projections of a branch, in a stable order.
- `execution`, `fake`: dispatch of pending provider and tool work, application of their results
  (stale results are ignored), and the fake Provider and tool.
- `events`, `collect`, `log`, `logfile`: the persisted events of each Session, what changed
  since the last write, the batches appended to each Session's log, and how a log's decoded
  lines are read back.
- `replay`, `hydrate`, `recovery`, `startup`: validation and replay of the logs, recovery of
  work interrupted by a restart, and the startup sequence.
- `tui`: the terminal view's decisions (keys, scrolling, transcript lines).
- `laws`, `key_laws`, `replay_laws`: properties that span several operations.

`app/` is the terminal front end: it reads and appends the JSON Lines logs, runs the frame loop,
and draws with ratatui.
