# raft_consensus

The Raft consensus algorithm in Rust, verified with Verus: leader election,
log replication and the commit rule, over a deterministic simulated network.

- `src/node.rs` is the algorithm; `src/protocol.rs` states what it does.
- `src/cluster.rs` runs nodes, a network and state machines tick by tick;
  `src/cluster_state.rs` states what each call does.
- `src/cluster_laws.rs`, `src/partition_laws.rs`, `src/run_laws.rs`,
  `src/node_laws.rs` and `src/sim/network_laws.rs` hold the guarantees: at most
  one leader per term, log matching, leader completeness, committed entries
  agree everywhere and are never lost, a minority commits nothing.
  `src/safety/` proves them for every run.
- `src/random.rs` is the only file with trusted contracts, on the `rand` crate.
- `app/` is a scripted demo; `tests/` run the library.

Storage is in memory. A crash is modelled as a disconnection: a node that
comes back has what it had.
