//! The Raft distributed consensus algorithm (Ongaro & Ousterhout, *In Search
//! of an Understandable Consensus Algorithm*), built for correctness clarity
//! rather than for production deployment, and proved safe.
//!
//! # Module map
//!
//! - [`rpc`] — the wire-level message types (RequestVote, AppendEntries).
//! - [`storage`] — the durable-state contract (`current_term`, `voted_for`,
//!   the log) and its in-memory implementation.
//! - [`node`] — [`node::RaftNode`], the pure, I/O-free Raft state machine:
//!   leader election + log replication + the commit-safety rule. What it does
//!   is stated in [`protocol`]; [`quorum`] finds what a majority holds.
//! - [`state_machine`] — the replicated state machine sitting on top of the
//!   log (a small key-value store over a [`text_map`]).
//! - [`sim`] — the deterministic in-memory network simulator used to test
//!   multi-node scenarios (elections, crashes, partitions) without flaky
//!   real-time behavior. Its chances come from [`random`].
//! - [`cluster`] — a harness wiring nodes + network + state machines
//!   together. What it does is stated in [`cluster_state`].
//! - [`node_laws`], [`run_laws`], [`cluster_laws`] — what holds of every node,
//!   of every series of inputs and of every cluster: election safety, log
//!   matching, leader completeness, state machine safety and more.
//! - [`conduct_laws`], [`call_laws`] — what every input does to a node, and every
//!   call to a cluster, told by what goes in and what comes out.
//! - [`partition_laws`] — what a partition keeps apart.
//! - [`safety`] — the proof behind them.

pub mod call_laws;
pub mod cluster;
pub mod cluster_laws;
pub mod cluster_state;
pub mod conduct_laws;
pub mod node;
pub mod node_laws;
pub mod partition_laws;
pub mod protocol;
pub mod quorum;
pub mod random;
pub mod rpc;
pub mod run_laws;
pub mod safety;
pub mod sim;
pub mod state_machine;
pub mod storage;
pub mod text_map;

pub use cluster::Cluster;
pub use node::{RaftConfig, RaftNode, RoleKind};
pub use sim::{Network, NetworkConfig};
pub use state_machine::{KvCommand, KvStore, StateMachine};
pub use storage::MemStorage;
