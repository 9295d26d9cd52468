# sparknode

The narrative engine of SparkNode (灵犀节点): a story is a directed acyclic
graph of narrative nodes and probability-weighted edges, changed only through
commands that an event-sourced aggregate turns into events.

`src/` is the library, verified with Verus:

- `dag` — the story graph: adding nodes and edges without ever closing a
  cycle, cascading node removal, topological order, breadth- and depth-first
  traversal, all simple paths, shortest paths, batch operations.
- `domain` — commands, events and the aggregate that decides commands and
  folds events (replay).
- `crdt` — last-writer-wins registers and the replicated graph with vector
  clocks.
- `persistence` — the Cypher statements that mirror events in a graph
  database.
- `chronos`, `merge` — timeline bookkeeping, rollback, branch diffs and merges.
- `gateway` — the API gateway's own rules: rate-limit keys and limits, bearer
  tokens, service addresses, the WebSocket protocol with its vector clocks,
  edge validation and the reading of streamed generation output.
- `prim`, `types`, `records` — identifiers, timestamps, labels, errors and
  the stored records.

Real-valued quantities (probabilities, weights, positions) are carried through
the library as their IEEE-754 bit patterns; the arithmetic on them lives in
`app/model.rs`.

`app/` is the HTTP/WebSocket gateway around the library (axum, sqlx, redis,
neo4rs, jsonwebtoken, reqwest), with serializable copies of the library's
records. `tests/` exercises the library.

The narrative service's RPC methods (collapse, command execution, rollback,
timeline) are in `app/engine.rs`; the request checks they make are in
`src/gateway/rpc.rs`. The protobuf bindings that would serve them over gRPC
are generated from the service's `.proto` contract by a build step and are
not part of this crate, so `app/` holds the method bodies and the `tonic`
channels but no server.
