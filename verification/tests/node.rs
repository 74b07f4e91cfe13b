//! A single node.

use raft_consensus::node::{RaftConfig, RaftNode, RoleKind};
use raft_consensus::rpc::{
    AppendEntriesArgs, AppendEntriesReply, Envelope, LogIndex, NodeId, RequestVoteArgs,
    RequestVoteReply, Rpc, Term,
};
use raft_consensus::storage::{LogCommand, LogEntry, MemStorage, Storage};

/// Hand-builds a leader with a specific log and term, bypassing the normal
/// election path. This is what lets the safety-rule test below set up the
/// exact Figure-8-shaped scenario precisely, instead of hoping message timing
/// in a full simulation happens to produce it.
fn leader_with_log(
    current_term: Term,
    entries: Vec<(Term, LogCommand<i32>)>,
    peers: Vec<NodeId>,
) -> RaftNode<i32, MemStorage<i32>> {
    let mut storage: MemStorage<i32> = MemStorage::default();
    let log_entries: Vec<LogEntry<i32>> = entries
        .into_iter()
        .enumerate()
        .map(|(i, (term, command))| LogEntry {
            term,
            index: (i + 1) as u64,
            command,
        })
        .collect();
    storage.append(log_entries);
    storage.set_term_and_vote(current_term, Some(1));
    let mut node = RaftNode::new(1, peers, storage, 1, RaftConfig::default());
    node.take_office();
    node
}

fn ack(term: Term, follower: NodeId, match_index: LogIndex) -> Envelope<i32> {
    Envelope {
        from: follower,
        to: 1,
        rpc: Rpc::AppendEntriesReply(AppendEntriesReply {
            term,
            success: true,
            follower,
            conflict_term: None,
            conflict_index: 0,
            match_index,
        }),
    }
}

/// The single most important safety property in Raft: a leader may only
/// treat an entry as committed once *majority replication of an entry
/// from its own current term* has happened — never from vote-counting a
/// majority-replicated entry from an *older* term alone. This is
/// exactly the hazard illustrated by Figure 8 in the Raft paper: if a
/// leader could commit by counting replicas regardless of term, a
/// later-elected leader (that never saw the entry) could overwrite an
/// already "committed" entry, breaking the fundamental guarantee that
/// committed entries are never lost.
///
/// This test builds a 5-node leader (id=1) sitting in term 4 whose log
/// contains an entry at index 5 written back in term 2 (as if it were
/// replicated by a previous leader). It then feeds AppendEntriesReply
/// messages directly, exactly as the network layer would, to prove:
///   1. Once a majority (3 of 5, including the leader) has replicated
///      index 5, `commit_index` must still be 0 — NOT 5 — because
///      index 5's term (2) is not the leader's current term (4).
///   2. Once the leader's own current-term entry (index 6) also reaches
///      a majority, `commit_index` jumps to 6 and index 5 (and all
///      earlier entries) become committed *transitively* — which is the
///      paper's actual rule, not an accident of this implementation.
#[test]
fn commit_index_requires_current_term_entry_replicated_to_majority() {
    let mut entries = vec![];
    for i in 1..=4u64 {
        entries.push((1, LogCommand::Command(i as i32)));
    }
    entries.push((2, LogCommand::Command(50))); // index 5, OLDER term (2), current term will be 4
    let mut node = leader_with_log(4, entries, vec![2, 3, 4, 5]);
    assert_eq!(node.storage().last_index(), 5);
    assert_eq!(node.commit_index(), 0);

    // Follower 2 and follower 3 both ack up through index 5. Together
    // with the leader itself that's 3 of 5 nodes matching index 5 — a
    // majority by pure vote count.
    let r1 = node.receive(ack(4, 2, 5));
    assert!(r1.committed.is_empty());
    let r2 = node.receive(ack(4, 3, 5));
    assert!(
        r2.committed.is_empty(),
        "must NOT commit an older-term entry just because a majority replicated it \
         (this is the Figure 8 hazard from the Raft paper)"
    );
    assert_eq!(
        node.commit_index(), 0,
        "commit_index must still be 0 after majority-replicating a stale-term entry"
    );

    // Now the leader's own no-op-style current-term entry (index 6,
    // term 4) also reaches the very same majority.
    assert_eq!(node.append_no_op(), 6);
    assert_eq!(
        node.storage().entry(6),
        Some(&LogEntry {
            term: 4,
            index: 6,
            command: LogCommand::<i32>::NoOp,
        })
    );
    let r3 = node.receive(ack(4, 2, 6));
    assert!(
        r3.committed.is_empty(),
        "only 2 of 5 nodes (leader + follower 2) match index 6 so far"
    );
    let r4 = node.receive(ack(4, 3, 6));

    assert_eq!(
        node.commit_index(), 6,
        "current-term entry replicated to majority must commit"
    );
    assert_eq!(
        r4.committed.len(),
        5,
        "indices 1..=5 (all Command entries) become committed transitively; index 6 is a NoOp and isn't surfaced"
    );
    assert!(
        r4.committed.iter().any(|c| c.index == 5 && c.command == 50),
        "the older-term entry at index 5 must be among the newly committed entries, safely, \
         once it rides in transitively behind a current-term commit"
    );
}

#[test]
fn single_node_cluster_commits_immediately_on_propose() {
    let storage: MemStorage<i32> = MemStorage::default();
    let mut node = RaftNode::new(1, vec![], storage, 1, RaftConfig::default());
    // No peers: starting an election immediately wins (peers.is_empty()).
    let result = node.start_election();
    assert!(node.is_leader());
    // Becoming leader appends + commits its own no-op (majority of 1).
    assert_eq!(node.commit_index(), 1);
    assert!(
        result.committed.is_empty(),
        "the no-op itself is never surfaced to the state machine"
    );

    let (index, step) = node.propose(99).expect("leader can propose");
    assert_eq!(index, 2);
    assert_eq!(step.committed.len(), 1);
    assert_eq!(step.committed[0].command, 99);
    assert_eq!(node.commit_index(), 2);
}

#[test]
fn two_node_election_reaches_majority_with_one_vote() {
    let storage: MemStorage<i32> = MemStorage::default();
    let mut candidate = RaftNode::new(1, vec![2], storage, 1, RaftConfig::default());
    let step = candidate.start_election();
    assert_eq!(candidate.role(), RoleKind::Candidate);
    assert_eq!(step.effects.len(), 1);
    let Rpc::RequestVote(args) = &step.effects[0].rpc else {
        panic!("expected RequestVote")
    };
    assert_eq!(args.term, 1);

    let reply = RequestVoteReply {
        term: 1,
        vote_granted: true,
        voter: 2,
    };
    let result = candidate.receive(Envelope {
        from: 2,
        to: 1,
        rpc: Rpc::RequestVoteReply(reply),
    });
    assert!(
        candidate.is_leader(),
        "1 self-vote + 1 granted vote = majority of 2"
    );
    assert!(
        !result.effects.is_empty(),
        "new leader immediately replicates its no-op"
    );
}

#[test]
fn vote_is_refused_when_candidate_log_is_less_up_to_date() {
    // Follower has a longer log (2 entries at term 1) than the
    // candidate's claimed log (empty) — the up-to-date check in
    // §5.4.1 must refuse the vote.
    let mut storage: MemStorage<i32> = MemStorage::default();
    storage.append(vec![
        LogEntry {
            term: 1,
            index: 1,
            command: LogCommand::Command(1),
        },
        LogEntry {
            term: 1,
            index: 2,
            command: LogCommand::Command(2),
        },
    ]);
    let mut follower = RaftNode::new(2, vec![1, 3], storage, 2, RaftConfig::default());
    let args = RequestVoteArgs {
        term: 1,
        candidate_id: 1,
        last_log_index: 0,
        last_log_term: 0,
    };
    let result = follower.receive(Envelope {
        from: 1,
        to: 2,
        rpc: Rpc::RequestVote(args),
    });
    let Rpc::RequestVoteReply(reply) = &result.effects[0].rpc else {
        panic!("expected reply")
    };
    assert!(
        !reply.vote_granted,
        "must not vote for a candidate with a less up-to-date log"
    );
}

#[test]
fn append_entries_conflict_is_backtracked_and_truncated() {
    // Follower has a conflicting entry at index 2 (term 1) that the
    // real leader's log disagrees with (leader has term 2 at index 2).
    let mut follower_storage: MemStorage<i32> = MemStorage::default();
    follower_storage.append(vec![
        LogEntry {
            term: 1,
            index: 1,
            command: LogCommand::Command(10),
        },
        LogEntry {
            term: 1,
            index: 2,
            command: LogCommand::Command(20),
        }, // conflicting
    ]);
    follower_storage.set_term_and_vote(1, None);
    let mut follower = RaftNode::new(2, vec![1], follower_storage, 2, RaftConfig::default());

    let args = AppendEntriesArgs {
        term: 2,
        leader_id: 1,
        prev_log_index: 1,
        prev_log_term: 1,
        entries: vec![LogEntry {
            term: 2,
            index: 2,
            command: LogCommand::Command(200),
        }],
        leader_commit: 0,
    };
    let result = follower.receive(Envelope {
        from: 1,
        to: 2,
        rpc: Rpc::AppendEntries(args),
    });
    let Rpc::AppendEntriesReply(reply) = &result.effects[0].rpc else {
        panic!("expected reply")
    };
    assert!(reply.success);
    assert_eq!(follower.log_len(), 2);
    assert_eq!(
        follower.storage().entry(2).unwrap().command,
        LogCommand::Command(200)
    );
}
