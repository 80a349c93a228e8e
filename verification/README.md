# synaptic_mesh

A verified core for a mesh of cognitive agents that share a DAG ledger.
The library in `src/` is written in Verus: each public function carries a
contract, and the properties that relate several functions are stated and
proved as public proof functions (`lemma_*`).

## Layout

- `src/dag.rs`, `src/storage.rs` — the DAG with validation, topological
  order, ancestors and descendants; in-memory and buffered node stores.
- `src/consensus.rs`, `src/node.rs` — vote tallies and finalization; a
  ledger node that signs, validates and stores submitted transactions.
- `src/crypto.rs`, `src/hexfmt.rs` — signing, key agreement, authenticated
  encryption, fingerprints and `.dark` names, behind small trusted wrappers
  of the cryptographic crates.
- `src/metrics.rs` — counters, latency histogram, throughput window.
- `src/mesh.rs`, `src/evolutionary_mesh.rs`, `src/clustering.rs`,
  `src/coordinator.rs` — topology rules, route reconstruction, clustering
  and agent selection.
- `src/peer.rs`, `src/p2p_integration.rs`, `src/cli.rs` and the smaller
  modules — peer capabilities, connection bookkeeping, command vocabulary,
  error types.
- `app/` — the command-line program and everything that does I/O, runs
  asynchronously or computes with real numbers (strengths, scores, rates).
- `tests/` — tests of the library.
