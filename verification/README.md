# ruma_lean

Matrix state resolution over a lightweight event model, verified with Verus.

## Layout

- `src/` — the verified library:
  - `kahn.rs`, `priority.rs`: the auth-ordered topological sort (Kahn's
    algorithm with the V1 / V2 / V2.1 tie-breaks) and its order;
  - `resolve.rs`: replaying sorted conflicted events over a base state;
  - `room_state.rs`, `auth_chain.rs`, `pipeline.rs`: the states at the heads,
    the power levels used by the sort, the unconflicted / conflicted split,
    whole-room resolution and the auth chain of the result;
  - `auth.rs`: the authorization rules and their iterative application;
  - `subgraph.rs`: the V2.1 conflicted subgraph;
  - `ctopology.rs`, `trace_compiler.rs`: the Boolean hypercube and the trace
    of a sorted room as a walk on it;
  - `signature.rs`, `wasm_client.rs`: Ed25519 signature checks and the join
    proof check, around `ed25519-consensus` and `sp1-verifier`;
  - `event.rs`, `event_map.rs`, `state_map.rs`, `id_set.rs`, `text.rs`: the
    event model, JSON content and the collections the algorithms use.
- `tests/` — tests of the library.
- `app/` — the command-line program (reading input, fetching a room from a
  homeserver, JSON output) and the browser entry points.
