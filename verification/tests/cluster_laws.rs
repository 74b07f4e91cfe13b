//! What a whole cluster keeps to, on concrete runs.

use rand::distributions::Bernoulli;

use raft_consensus::cluster::Cluster;
use raft_consensus::node::{NotLeaderError, RaftConfig};
use raft_consensus::rpc::{LogIndex, NodeId, Term};
use raft_consensus::sim::NetworkConfig;
use raft_consensus::state_machine::{KvCommand, KvStore};
use raft_consensus::storage::{LogCommand, LogEntry, Storage};

fn put(key: &str, value: &str) -> KvCommand {
    KvCommand::Put {
        key: key.to_string(),
        value: value.to_string(),
    }
}

fn cluster_of(ids: &[NodeId], seed: u64) -> Cluster<KvStore> {
    Cluster::new(ids, RaftConfig::default(), NetworkConfig::default(), seed)
}

fn lossy(ids: &[NodeId], seed: u64) -> Cluster<KvStore> {
    let net = NetworkConfig {
        min_latency_ticks: 1,
        max_latency_ticks: 6,
        drop_probability: Some(Bernoulli::new(0.2).unwrap()),
    };
    Cluster::new(ids, RaftConfig::default(), net, seed)
}

/// The part of each log that was applied.
fn applied(cluster: &Cluster<KvStore>) -> Vec<Vec<LogEntry<KvCommand>>> {
    let mut logs = Vec::new();
    for id in cluster.all_ids() {
        let node = cluster.nodes.get(&id).unwrap();
        let mut log = node.storage().entries_from(1);
        log.truncate(node.last_applied() as usize);
        logs.push(log);
    }
    logs
}

fn terms(cluster: &Cluster<KvStore>) -> Vec<Term> {
    cluster
        .all_ids()
        .iter()
        .map(|id| cluster.nodes.get(id).unwrap().current_term())
        .collect()
}

#[test]
fn nothing_is_lost_and_logs_agree_whatever_happens() {
    for seed in 0..6u64 {
        let mut cluster = lossy(&[1, 2, 3, 4, 5], seed);
        let mut before = applied(&cluster);
        let mut terms_before = terms(&cluster);
        for tick in 0..600u64 {
            match tick % 97 {
                10 => cluster.disconnect(1 + (tick + seed) % 5),
                40 => cluster.reconnect(1 + (tick - 30 + seed) % 5),
                50 => cluster.partition(vec![vec![1, 2], vec![3, 4, 5]]),
                80 => cluster.heal_partition(),
                _ => {}
            }
            if tick % 5 == 0 {
                cluster.propose_via_current_leader(put("k", &tick.to_string()));
            }
            cluster.tick();
            assert!(cluster.at_most_one_leader_per_term());
            assert!(cluster.committed_terms_agree());
            let after = applied(&cluster);
            for (old, new) in before.iter().zip(after.iter()) {
                assert_eq!(old[..], new[..old.len()]);
            }
            // Every two nodes applied the same, as far as both have come.
            for a in &after {
                for b in &after {
                    let n = a.len().min(b.len());
                    assert_eq!(a[..n], b[..n]);
                }
            }
            let terms_after = terms(&cluster);
            for (old, new) in terms_before.iter().zip(terms_after.iter()) {
                assert!(old <= new);
            }
            before = after;
            terms_before = terms_after;
        }
        // Something did happen.
        assert!(before.iter().any(|log| log.len() > 3));
    }
}

#[test]
fn a_committed_entry_is_held_by_a_majority() {
    let mut cluster = lossy(&[1, 2, 3, 4, 5], 3);
    for tick in 0..300u64 {
        if tick % 4 == 0 {
            cluster.propose_via_current_leader(put("k", &tick.to_string()));
        }
        cluster.tick();
        for id in cluster.all_ids() {
            let index = cluster.commit_index(id);
            if index > 0 {
                let entry = cluster.nodes.get(&id).unwrap().storage().entry(index);
                let holders = cluster
                    .nodes
                    .values()
                    .filter(|node| node.storage().entry(index) == entry)
                    .count();
                assert!(holders >= 3);
            }
        }
    }
    assert!(cluster.commit_index(1) > 0);
}

#[test]
fn machines_that_applied_equally_far_are_equal() {
    let mut cluster = lossy(&[1, 2, 3], 8);
    for tick in 0..200u64 {
        if tick % 3 == 0 {
            cluster.propose_via_current_leader(put(&format!("k{}", tick % 7), &tick.to_string()));
        }
        cluster.tick();
        for a in cluster.all_ids() {
            for b in cluster.all_ids() {
                let x = cluster.nodes.get(&a).unwrap();
                let y = cluster.nodes.get(&b).unwrap();
                if x.last_applied() == y.last_applied() {
                    assert_eq!(cluster.machine(a), cluster.machine(b));
                }
            }
        }
    }
    assert!(cluster.machine(1).map.contains_key("k0"));
}

#[test]
fn the_same_seed_gives_the_same_run() {
    let run = |seed: u64| {
        let mut cluster = lossy(&[1, 2, 3, 4, 5], seed);
        let mut seen: Vec<(Option<NodeId>, Option<LogIndex>, Vec<Term>)> = Vec::new();
        for tick in 0..200u64 {
            cluster.tick();
            let index = cluster.propose_via_current_leader(put("k", &tick.to_string()));
            seen.push((cluster.current_leader(), index, terms(&cluster)));
        }
        (seen, applied(&cluster))
    };
    assert_eq!(run(5), run(5));
    assert_ne!(run(5), run(6));
}

#[test]
fn ticks_are_counted() {
    let mut cluster = cluster_of(&[1, 2, 3], 0);
    assert_eq!(cluster.tick_count, 0);
    cluster.tick();
    assert_eq!(cluster.tick_count, 1);
    cluster.run_ticks(9);
    assert_eq!(cluster.tick_count, 10);
    assert_eq!(cluster.network.now(), 10);
    assert_eq!(cluster.run_until_leader(0), None);
    assert!(!cluster.run_until_committed(&[1], 0, 0));
    assert!(cluster.run_until_committed(&[1], 0, 5));
    assert_eq!(cluster.tick_count, 11);
}

#[test]
fn ids_come_in_ascending_order() {
    let mut cluster = cluster_of(&[5, 1, 9, 3], 0);
    assert_eq!(cluster.all_ids(), vec![1, 3, 5, 9]);
    cluster.disconnect(5);
    cluster.disconnect(77);
    assert_eq!(cluster.reachable_ids(), vec![1, 3, 9]);
    cluster.reconnect(5);
    assert_eq!(cluster.reachable_ids(), vec![1, 3, 5, 9]);
}

#[test]
fn only_the_leader_takes_proposals() {
    let mut cluster = cluster_of(&[1, 2, 3], 4);
    assert_eq!(
        cluster.propose(1, put("a", "1")),
        Err(NotLeaderError { leader_hint: None })
    );
    assert_eq!(cluster.propose_via_current_leader(put("a", "1")), None);
    assert_eq!(cluster.current_leader(), None);
    assert_eq!(cluster.leader_among(&[1, 2, 3]), None);
    assert_eq!(cluster.leaders_by_term(), vec![]);
    let leader = cluster.run_until_leader(200).unwrap();
    let term = cluster.nodes.get(&leader).unwrap().current_term();
    assert_eq!(cluster.current_leader(), Some(leader));
    assert_eq!(cluster.leaders_by_term(), vec![(term, leader)]);
    assert_eq!(cluster.leader_among(&[99, 1, 2, 3]), Some(leader));
    assert_eq!(cluster.leader_among(&[99]), None);
    // The leader's no-op comes first.
    assert_eq!(cluster.propose_via_current_leader(put("a", "1")), Some(2));
    assert_eq!(cluster.propose(leader, put("b", "2")), Ok(3));
    let other = 1 + leader % 3;
    assert!(cluster.run_until_committed(&[1, 2, 3], 3, 100));
    assert_eq!(
        cluster.propose(other, put("c", "3")),
        Err(NotLeaderError {
            leader_hint: Some(leader)
        })
    );
    assert_eq!(cluster.machine(other).map.get("b"), Some(&"2".to_string()));
}

#[test]
fn a_cluster_of_one_commits_alone() {
    let mut cluster = cluster_of(&[7], 2);
    assert_eq!(cluster.run_until_leader(30), Some(7));
    assert_eq!(cluster.commit_index(7), 1);
    assert_eq!(cluster.propose(7, put("a", "1")), Ok(2));
    assert_eq!(cluster.commit_index(7), 2);
    assert_eq!(cluster.machine(7).map.get("a"), Some(&"1".to_string()));
}

#[test]
fn a_cluster_of_none_has_no_leader() {
    let mut cluster = cluster_of(&[], 2);
    assert_eq!(cluster.run_until_leader(30), None);
    assert!(cluster.all_ids().is_empty());
    cluster.assert_at_most_one_leader_per_term();
    cluster.assert_committed_logs_agree();
}

#[test]
fn a_leader_keeps_its_term_while_cut_off() {
    let mut cluster = cluster_of(&[1, 2, 3], 1);
    let first = cluster.run_until_leader(200).unwrap();
    cluster.disconnect(first);
    cluster.run_ticks(200);
    // Two leaders, in different terms.
    let leaders = cluster.leaders_by_term();
    assert_eq!(leaders.len(), 2);
    assert_ne!(leaders[0].0, leaders[1].0);
    assert!(leaders[0].1 < leaders[1].1);
    cluster.assert_at_most_one_leader_per_term();
    // The lowest of them by id.
    assert_eq!(cluster.current_leader(), Some(leaders[0].1));
    cluster.reconnect(first);
    cluster.run_ticks(50);
    assert_eq!(cluster.leaders_by_term().len(), 1);
}

#[test]
fn every_entry_commits_within_a_few_ticks_on_fast_links() {
    let net = NetworkConfig {
        min_latency_ticks: 1,
        max_latency_ticks: 1,
        drop_probability: None,
    };
    for size in [3u64, 5] {
        let ids: Vec<NodeId> = (1..=size).collect();
        let mut cluster: Cluster<KvStore> = Cluster::new(&ids, RaftConfig::default(), net, 1);
        let leader = cluster.run_until_leader(200).unwrap();
        for i in 0..50 {
            let index = cluster
                .propose(leader, put(&format!("k{i}"), &format!("v{i}")))
                .unwrap();
            assert!(cluster.run_until_committed(&ids, index, 20));
        }
    }
}

#[test]
fn logs_match_and_leaders_have_everything_committed() {
    for seed in 0..4u64 {
        let mut cluster = lossy(&[1, 2, 3, 4, 5], seed);
        for tick in 0..400u64 {
            match tick % 120 {
                60 => cluster.partition(vec![vec![1, 2, 3], vec![4, 5]]),
                100 => cluster.heal_partition(),
                _ => {}
            }
            if tick % 3 == 0 {
                for (_, leader) in cluster.leaders_by_term() {
                    let _ = cluster.propose(leader, put("k", &tick.to_string()));
                }
            }
            cluster.tick();
            for a in cluster.nodes.values() {
                let x = a.storage().entries_from(1);
                for (i, entry) in x.iter().enumerate() {
                    assert_eq!(entry.index, i as u64 + 1);
                    assert!(entry.term >= 1 && entry.term <= a.current_term());
                    assert!(i == 0 || x[i - 1].term <= entry.term);
                }
                assert!(a.commit_index() <= a.last_applied());
                assert!(a.last_applied() <= a.log_len());
                for b in cluster.nodes.values() {
                    let y = b.storage().entries_from(1);
                    // The last index at which the terms agree.
                    let n = (0..x.len().min(y.len()))
                        .rev()
                        .find(|&i| x[i].term == y[i].term)
                        .map(|i| i + 1)
                        .unwrap_or(0);
                    assert_eq!(x[..n], y[..n]);
                    if a.is_leader() && a.current_term() >= b.current_term() {
                        let committed = b.commit_index() as usize;
                        assert_eq!(x[..committed], y[..committed]);
                    }
                }
            }
        }
        assert!(cluster.nodes.values().any(|node| node.commit_index() > 5));
    }
}

#[test]
fn ticks_until_one_of_these_leads() {
    let mut cluster = cluster_of(&[1, 2, 3, 4, 5], 7);
    assert_eq!(cluster.run_until_leader_among(&[1, 2, 3, 4, 5], 0), None);
    assert_eq!(cluster.run_until_leader_among(&[], 5), None);
    assert_eq!(cluster.tick_count, 5);
    let first = cluster
        .run_until_leader_among(&[1, 2, 3, 4, 5], 200)
        .unwrap();
    cluster.disconnect(first);
    let rest: Vec<NodeId> = (1..=5).filter(|&id| id != first).collect();
    let at = cluster.tick_count;
    let second = cluster.run_until_leader_among(&rest, 300).unwrap();
    assert!(cluster.tick_count > at && cluster.tick_count <= at + 300);
    assert_ne!(second, first);
    assert!(cluster.nodes.get(&second).unwrap().is_leader());
    // An unknown id never leads.
    assert_eq!(cluster.run_until_leader_among(&[77], 3), None);
}

#[test]
fn an_unknown_id_is_not_asked_for_nothing() {
    let mut cluster = cluster_of(&[1, 2, 3], 0);
    assert!(!cluster.run_until_committed(&[77], 1, 0));
    // Nobody commits that much, so nobody behind the first is looked at.
    assert!(!cluster.run_until_committed(&[1, 77], 1000, 30));
}

#[test]
fn a_minority_commits_nothing_while_the_partition_stands() {
    for seed in 0..6u64 {
        let mut cluster = cluster_of(&[1, 2, 3, 4, 5], seed);
        let leader = cluster.run_until_leader(200).unwrap();
        let partner = 1 + leader % 5;
        let minority = vec![leader, partner];
        let majority: Vec<NodeId> = (1..=5).filter(|id| !minority.contains(id)).collect();
        cluster.partition(vec![minority, majority.clone()]);
        let index = cluster.propose(leader, put("stuck", "yes")).unwrap();
        for _ in 0..200 {
            cluster.tick();
            assert!(cluster.commit_index(leader) < index);
            for id in &majority {
                let log = cluster.nodes.get(id).unwrap().storage().entries_from(1);
                for entry in &log {
                    assert_ne!(entry.command, LogCommand::Command(put("stuck", "yes")));
                }
            }
        }
    }
}
