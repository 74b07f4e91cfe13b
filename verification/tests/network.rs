//! The simulated network.

use rand::distributions::Bernoulli;

use raft_consensus::rpc::{AppendEntriesReply, Envelope, NodeId, Rpc};
use raft_consensus::sim::{Network, NetworkConfig};

fn dummy_env(from: NodeId, to: NodeId) -> Envelope<i32> {
    Envelope {
        from,
        to,
        rpc: Rpc::AppendEntriesReply(AppendEntriesReply {
            term: 0,
            success: true,
            follower: to,
            conflict_term: None,
            conflict_index: 0,
            match_index: 0,
        }),
    }
}

#[test]
fn messages_are_delayed_and_delivered_in_order() {
    let mut net: Network<i32> = Network::new(
        NetworkConfig {
            min_latency_ticks: 2,
            max_latency_ticks: 2,
            drop_probability: None,
        },
        42,
    );
    net.send(dummy_env(1, 2));
    assert!(net.advance_tick().is_empty());
    let due = net.advance_tick();
    assert_eq!(due.len(), 1);
}

#[test]
fn disconnected_node_receives_nothing() {
    let mut net: Network<i32> = Network::new(
        NetworkConfig {
            min_latency_ticks: 1,
            max_latency_ticks: 1,
            drop_probability: None,
        },
        7,
    );
    net.disconnect(2);
    net.send(dummy_env(1, 2));
    let due = net.advance_tick();
    assert!(due.is_empty());
}

#[test]
fn partition_blocks_cross_group_delivery() {
    let mut net: Network<i32> = Network::new(
        NetworkConfig {
            min_latency_ticks: 1,
            max_latency_ticks: 1,
            drop_probability: None,
        },
        7,
    );
    net.set_partition(vec![vec![1, 2], vec![3, 4, 5]]);
    net.send(dummy_env(1, 3));
    assert!(net.advance_tick().is_empty());
    net.send(dummy_env(1, 2));
    assert_eq!(net.advance_tick().len(), 1);
}

#[test]
fn deterministic_given_same_seed() {
    let make = || {
        let mut net: Network<i32> = Network::new(
            NetworkConfig {
                min_latency_ticks: 1,
                max_latency_ticks: 5,
                drop_probability: Some(Bernoulli::new(0.2).unwrap()),
            },
            123,
        );
        let mut delivered_ticks = Vec::new();
        for i in 0..50 {
            net.send(dummy_env(1, 2 + (i % 3)));
            for env in net.advance_tick() {
                delivered_ticks.push((net.now(), env.to));
            }
        }
        delivered_ticks
    };
    assert_eq!(make(), make());
}
