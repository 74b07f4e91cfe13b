//! What the network delivers, and when.

use rand::distributions::Bernoulli;
use rand::rngs::StdRng;
use rand::{Rng, SeedableRng};

use raft_consensus::rpc::{Envelope, NodeId, RequestVoteReply, Rpc};
use raft_consensus::sim::{Network, NetworkConfig};

/// A message that carries a number.
fn note(from: NodeId, to: NodeId, number: u64) -> Envelope<i32> {
    Envelope {
        from,
        to,
        rpc: Rpc::RequestVoteReply(RequestVoteReply {
            term: number,
            vote_granted: false,
            voter: from,
        }),
    }
}

fn number(envelope: &Envelope<i32>) -> u64 {
    match &envelope.rpc {
        Rpc::RequestVoteReply(reply) => reply.term,
        _ => panic!("expected a numbered message"),
    }
}

fn fixed(latency: u64) -> NetworkConfig {
    NetworkConfig {
        min_latency_ticks: latency,
        max_latency_ticks: latency,
        drop_probability: None,
    }
}

fn numbers(due: Vec<Envelope<i32>>) -> Vec<u64> {
    due.iter().map(number).collect()
}

#[test]
fn default_network() {
    let config = NetworkConfig::default();
    assert_eq!(config.min_latency_ticks, 1);
    assert_eq!(config.max_latency_ticks, 3);
    assert!(config.drop_probability.is_none());
}

#[test]
fn a_message_takes_at_least_one_tick() {
    let mut net: Network<i32> = Network::new(fixed(0), 1);
    assert_eq!(net.now(), 0);
    net.send(note(1, 2, 7));
    assert_eq!(numbers(net.advance_tick()), vec![7]);
    assert_eq!(net.now(), 1);
    assert!(net.advance_tick().is_empty());
}

#[test]
fn messages_for_the_same_tick_arrive_in_the_order_sent() {
    let mut net: Network<i32> = Network::new(fixed(2), 1);
    for i in 0..5 {
        net.send(note(1, 2 + i % 2, i));
    }
    net.advance_tick();
    net.send(note(1, 2, 9));
    assert_eq!(numbers(net.advance_tick()), vec![0, 1, 2, 3, 4]);
    assert_eq!(numbers(net.advance_tick()), vec![9]);
}

#[test]
fn latency_and_loss_follow_the_seed() {
    for seed in 0..5u64 {
        let config = NetworkConfig {
            min_latency_ticks: 2,
            max_latency_ticks: 9,
            drop_probability: Some(Bernoulli::new(0.4).unwrap()),
        };
        let mut net: Network<i32> = Network::new(config, seed);
        let mut expected = StdRng::seed_from_u64(seed);
        let mut arrivals: Vec<(u64, u64)> = Vec::new();
        for i in 0..100 {
            net.send(note(1, 2, i));
            if !expected.gen_bool(0.4) {
                let latency: u64 = expected.gen_range(2..=9);
                arrivals.push((latency, i));
            }
        }
        // In order of arrival; the sort keeps the order of sending.
        arrivals.sort_by_key(|arrival| arrival.0);
        let mut delivered: Vec<(u64, u64)> = Vec::new();
        for _ in 0..10 {
            for envelope in net.advance_tick() {
                delivered.push((net.now(), number(&envelope)));
            }
        }
        assert_eq!(delivered, arrivals);
        assert!(delivered.len() < 100);
    }
}

#[test]
fn certain_loss_loses_everything() {
    let config = NetworkConfig {
        drop_probability: Some(Bernoulli::new(1.0).unwrap()),
        ..NetworkConfig::default()
    };
    let mut net: Network<i32> = Network::new(config, 3);
    for i in 0..20 {
        net.send(note(1, 2, i));
    }
    for _ in 0..5 {
        assert!(net.advance_tick().is_empty());
    }
}

#[test]
fn a_link_must_be_open_when_a_message_arrives() {
    let mut net: Network<i32> = Network::new(fixed(2), 1);
    net.send(note(1, 2, 0));
    net.send(note(2, 1, 1));
    net.send(note(1, 3, 2));
    net.advance_tick();
    net.disconnect(2);
    assert!(net.is_disconnected(2));
    assert!(!net.is_disconnected(1));
    assert_eq!(numbers(net.advance_tick()), vec![2]);
    // What was lost stays lost.
    net.reconnect(2);
    assert!(!net.is_disconnected(2));
    assert!(net.advance_tick().is_empty());
    net.send(note(1, 2, 3));
    net.advance_tick();
    assert_eq!(numbers(net.advance_tick()), vec![3]);
}

#[test]
fn a_disconnected_node_sends_nothing() {
    let mut net: Network<i32> = Network::new(fixed(1), 1);
    net.disconnect(2);
    net.send(note(2, 1, 0));
    net.reconnect(2);
    assert!(net.advance_tick().is_empty());
}

#[test]
fn messages_stay_within_a_group() {
    let mut net: Network<i32> = Network::new(fixed(1), 1);
    net.set_partition(vec![vec![1, 2], vec![3, 4]]);
    net.send(note(1, 2, 0));
    net.send(note(2, 3, 1));
    net.send(note(4, 3, 2));
    net.send(note(4, 1, 3));
    assert_eq!(numbers(net.advance_tick()), vec![0, 2]);
    net.heal_partition();
    net.send(note(2, 3, 4));
    assert_eq!(numbers(net.advance_tick()), vec![4]);
}

#[test]
fn a_node_in_no_group_is_cut_off() {
    let mut net: Network<i32> = Network::new(fixed(1), 1);
    net.set_partition(vec![vec![1, 2]]);
    net.send(note(5, 1, 0));
    net.send(note(1, 5, 1));
    net.send(note(5, 5, 2));
    net.send(note(5, 6, 3));
    net.send(note(1, 1, 4));
    assert_eq!(numbers(net.advance_tick()), vec![4]);
}

#[test]
fn a_scheduled_message_arrives_after_its_latency() {
    let mut net: Network<i32> = Network::new(fixed(9), 1);
    net.schedule(note(1, 2, 0), 3);
    net.schedule(note(1, 2, 1), 0);
    net.schedule(note(1, 2, 2), 3);
    net.schedule(note(1, 2, 3), 2);
    assert_eq!(numbers(net.advance_tick()), vec![1]);
    net.schedule(note(1, 2, 4), 2);
    assert_eq!(numbers(net.advance_tick()), vec![3]);
    assert_eq!(numbers(net.advance_tick()), vec![0, 2, 4]);
}
