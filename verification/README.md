# tasker

A task orchestration engine: tasks with blocking dependencies, parents and
priorities move from pending to ready, running, completed or cancelled. The
library holds the logic and its proofs.

- `src/types.rs`, `src/error.rs`, `src/render.rs`: tasks, edges, errors and
  their texts.
- `src/model.rs`, `src/engine.rs`, `src/store.rs`, `src/clock.rs`: the state of
  an engine as mathematics, and the engine that keeps to it.
- `src/invariants.rs`, `src/graph.rs`, `src/sound.rs`, `src/numbers.rs`,
  `src/laws.rs`: what holds of every engine and of every run of operations. A
  new engine is `sound`, and every method keeps it so.
- `src/protocol.rs`, `src/buffers.rs`, `src/checksum.rs`: frames on a stream.
- `src/rpc.rs`: requests, answers and what a client reads from them.
- `src/journal.rs`, `src/snapshot.rs`, `src/codec.rs`, `src/text.rs`: the bytes
  of a journal and of a snapshot.
- `src/registry.rs`: component instances and their heartbeats.
- `app/`: sockets, files, channels and serialisation around the library.

Functions whose name ends in `_at` take the time as an argument; their
counterparts read the clock.
