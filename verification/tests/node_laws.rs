//! What a node does with its inputs, on concrete values.

use std::collections::HashMap;

use rand::rngs::StdRng;
use rand::{Rng, SeedableRng};

use raft_consensus::node::{NotLeaderError, RaftConfig, RaftNode, Role, RoleKind, StepResult};
use raft_consensus::rpc::{
    AppendEntriesArgs, AppendEntriesReply, Envelope, LogIndex, NodeId, RequestVoteArgs,
    RequestVoteReply, Rpc, Term,
};
use raft_consensus::storage::{LogCommand, LogEntry, MemStorage, Storage};

type Node = RaftNode<i32, MemStorage<i32>>;

fn entry(term: Term, index: LogIndex, value: i32) -> LogEntry<i32> {
    LogEntry {
        term,
        index,
        command: LogCommand::Command(value),
    }
}

/// A follower in `term` whose log has entries of these terms.
fn follower(id: NodeId, peers: Vec<NodeId>, term: Term, terms: &[Term]) -> Node {
    let mut storage: MemStorage<i32> = MemStorage::default();
    let mut entries = Vec::new();
    for (i, &t) in terms.iter().enumerate() {
        entries.push(entry(t, i as u64 + 1, i as i32 + 1));
    }
    storage.append(entries);
    storage.set_term_and_vote(term, None);
    RaftNode::new(id, peers, storage, 9, RaftConfig::default())
}

/// A leader in `term` whose log has entries of these terms.
fn leader(id: NodeId, peers: Vec<NodeId>, term: Term, terms: &[Term]) -> Node {
    let mut node = follower(id, peers, term, terms);
    node.take_office();
    node
}

fn append(
    term: Term,
    prev: (LogIndex, Term),
    entries: Vec<LogEntry<i32>>,
    leader_commit: LogIndex,
) -> Envelope<i32> {
    Envelope {
        from: 1,
        to: 2,
        rpc: Rpc::AppendEntries(AppendEntriesArgs {
            term,
            leader_id: 1,
            prev_log_index: prev.0,
            prev_log_term: prev.1,
            entries,
            leader_commit,
        }),
    }
}

fn append_reply(step: &StepResult<i32>) -> AppendEntriesReply {
    assert_eq!(step.effects.len(), 1);
    match &step.effects[0].rpc {
        Rpc::AppendEntriesReply(reply) => reply.clone(),
        _ => panic!("expected an append reply"),
    }
}

fn request(envelope: &Envelope<i32>) -> AppendEntriesArgs<i32> {
    match &envelope.rpc {
        Rpc::AppendEntries(args) => args.clone(),
        _ => panic!("expected an append request"),
    }
}

fn ask_for_vote(candidate: NodeId, term: Term, last: (LogIndex, Term)) -> Envelope<i32> {
    Envelope {
        from: candidate,
        to: 2,
        rpc: Rpc::RequestVote(RequestVoteArgs {
            term,
            candidate_id: candidate,
            last_log_index: last.0,
            last_log_term: last.1,
        }),
    }
}

fn vote_reply(step: &StepResult<i32>) -> RequestVoteReply {
    assert_eq!(step.effects.len(), 1);
    match &step.effects[0].rpc {
        Rpc::RequestVoteReply(reply) => reply.clone(),
        _ => panic!("expected a vote reply"),
    }
}

fn reply(
    term: Term,
    from: NodeId,
    success: bool,
    conflict: (Option<Term>, LogIndex),
    match_index: LogIndex,
) -> Envelope<i32> {
    Envelope {
        from,
        to: 1,
        rpc: Rpc::AppendEntriesReply(AppendEntriesReply {
            term,
            success,
            follower: from,
            conflict_term: conflict.0,
            conflict_index: conflict.1,
            match_index,
        }),
    }
}

// ---- configuration and results -----------------------------------------------

#[test]
fn default_timing() {
    let config = RaftConfig::default();
    assert_eq!(config.min_election_ticks, 10);
    assert_eq!(config.max_election_ticks, 20);
    assert_eq!(config.heartbeat_ticks, 3);
}

#[test]
fn step_results_hold_what_they_are_given() {
    let nothing: StepResult<i32> = StepResult::empty();
    assert!(nothing.effects.is_empty() && nothing.committed.is_empty());
    let message = reply(1, 2, true, (None, 0), 0);
    let one = StepResult::single(message.clone());
    assert_eq!(one.effects, vec![message]);
    assert!(one.committed.is_empty());
}

#[test]
fn a_role_has_a_kind() {
    assert_eq!(Role::Follower.kind(), RoleKind::Follower);
    assert_eq!(Role::Candidate.kind(), RoleKind::Candidate);
    let leader = Role::Leader {
        next_index: HashMap::from([(2, 1)]),
        match_index: HashMap::from([(2, 0)]),
    };
    assert_eq!(leader.kind(), RoleKind::Leader);
}

#[test]
fn a_new_node_follows_nobody() {
    let node = follower(2, vec![1, 3], 4, &[1, 4]);
    assert_eq!(node.role(), RoleKind::Follower);
    assert!(!node.is_leader());
    assert_eq!(node.current_term(), 4);
    assert_eq!(node.commit_index(), 0);
    assert_eq!(node.last_applied(), 0);
    assert_eq!(node.log_len(), 2);
    assert_eq!(node.leader_hint(), None);
    assert_eq!(node.id, 2);
}

// ---- timers ------------------------------------------------------------------

/// Ticks until the node stands for election.
fn ticks_until_candidate(node: &mut Node) -> u64 {
    let mut ticks = 0;
    while node.role() != RoleKind::Candidate {
        node.tick();
        ticks += 1;
    }
    ticks
}

#[test]
fn the_election_timeout_is_drawn_from_the_seed() {
    for seed in 0..20u64 {
        let mut expected = StdRng::seed_from_u64(seed);
        let storage: MemStorage<i32> = MemStorage::default();
        let mut node = RaftNode::new(1, vec![2, 3], storage, seed, RaftConfig::default());
        let first: u64 = expected.gen_range(10..=20);
        assert_eq!(ticks_until_candidate(&mut node), first);
        // Standing for election drew the next one.
        let second: u64 = expected.gen_range(10..=20);
        let mut ticks = 0;
        while node.current_term() == 1 {
            node.tick();
            ticks += 1;
        }
        assert_eq!(ticks, second);
    }
}

#[test]
fn a_fixed_election_timeout_is_kept() {
    let config = RaftConfig {
        min_election_ticks: 7,
        max_election_ticks: 7,
        heartbeat_ticks: 2,
    };
    let storage: MemStorage<i32> = MemStorage::default();
    let mut node = RaftNode::new(1, vec![2], storage, 5, config);
    assert_eq!(ticks_until_candidate(&mut node), 7);
}

#[test]
fn a_leader_sends_heartbeats_to_all_peers() {
    let mut node = leader(1, vec![2, 3, 4], 2, &[1, 2]);
    assert!(node.tick().effects.is_empty());
    assert!(node.tick().effects.is_empty());
    let step = node.tick();
    let to: Vec<NodeId> = step.effects.iter().map(|e| e.to).collect();
    assert_eq!(to, vec![2, 3, 4]);
    let args = request(&step.effects[0]);
    assert_eq!(args.term, 2);
    assert_eq!(args.leader_id, 1);
    assert_eq!((args.prev_log_index, args.prev_log_term), (2, 2));
    assert!(args.entries.is_empty());
    assert_eq!(args.leader_commit, 0);
    assert!(node.tick().effects.is_empty());
}

#[test]
fn hearing_from_a_leader_restarts_the_election_clock() {
    let mut node = follower(2, vec![1, 3], 1, &[]);
    for _ in 0..200 {
        for _ in 0..9 {
            node.tick();
        }
        node.receive(append(1, (0, 0), vec![], 0));
    }
    assert_eq!(node.role(), RoleKind::Follower);
    assert_eq!(node.leader_hint(), Some(1));
}

// ---- elections ---------------------------------------------------------------

#[test]
fn an_election_asks_all_peers() {
    let mut node = follower(1, vec![2, 3], 4, &[1, 3]);
    let step = node.start_election();
    assert_eq!(node.role(), RoleKind::Candidate);
    assert_eq!(node.current_term(), 5);
    assert_eq!(node.storage().voted_for(), Some(1));
    assert_eq!(step.effects.len(), 2);
    for (i, envelope) in step.effects.iter().enumerate() {
        assert_eq!((envelope.from, envelope.to), (1, i as u64 + 2));
        assert_eq!(
            envelope.rpc,
            Rpc::RequestVote(RequestVoteArgs {
                term: 5,
                candidate_id: 1,
                last_log_index: 2,
                last_log_term: 3,
            })
        );
    }
}

fn grant(term: Term, voter: NodeId, granted: bool) -> Envelope<i32> {
    Envelope {
        from: voter,
        to: 1,
        rpc: Rpc::RequestVoteReply(RequestVoteReply {
            term,
            vote_granted: granted,
            voter,
        }),
    }
}

#[test]
fn a_majority_of_votes_elects() {
    let mut node = follower(1, vec![2, 3, 4, 5], 0, &[]);
    node.start_election();
    node.receive(grant(1, 2, false));
    node.receive(grant(1, 3, true));
    // The same vote twice counts once.
    node.receive(grant(1, 3, true));
    assert_eq!(node.role(), RoleKind::Candidate);
    // A vote of an earlier term does not count.
    node.receive(grant(0, 4, true));
    assert_eq!(node.role(), RoleKind::Candidate);
    let step = node.receive(grant(1, 5, true));
    assert!(node.is_leader());
    assert_eq!(node.leader_hint(), Some(1));
    // The new leader appends a no-op of its own term and sends it to all.
    assert_eq!(node.log_len(), 1);
    assert_eq!(node.storage().entry(1).unwrap().command, LogCommand::NoOp);
    assert_eq!(node.storage().entry(1).unwrap().term, 1);
    assert_eq!(step.effects.len(), 4);
    assert_eq!(request(&step.effects[0]).entries.len(), 1);
    // Further votes change nothing.
    assert_eq!(node.receive(grant(1, 4, true)), StepResult::empty());
    assert!(node.is_leader());
}

#[test]
fn one_vote_per_term() {
    let mut node = follower(2, vec![1, 3], 1, &[1]);
    let step = node.receive(ask_for_vote(1, 2, (1, 1)));
    assert_eq!(
        vote_reply(&step),
        RequestVoteReply {
            term: 2,
            vote_granted: true,
            voter: 2,
        }
    );
    // Another candidate in the same term is refused, the same one is not.
    assert!(!vote_reply(&node.receive(ask_for_vote(3, 2, (5, 1)))).vote_granted);
    assert!(vote_reply(&node.receive(ask_for_vote(1, 2, (1, 1)))).vote_granted);
    // A later term is a new vote.
    assert!(vote_reply(&node.receive(ask_for_vote(3, 3, (5, 1)))).vote_granted);
    assert_eq!(node.storage().voted_for(), Some(3));
}

#[test]
fn votes_go_to_logs_that_are_up_to_date() {
    // The log ends in term 2 with three entries.
    let cases = [
        ((3, 2), true),
        ((4, 2), true),
        ((2, 2), false),
        ((1, 3), true),
        ((9, 1), false),
    ];
    for (last, granted) in cases {
        let mut node = follower(2, vec![1, 3], 2, &[1, 1, 2]);
        let step = node.receive(ask_for_vote(1, 3, last));
        assert_eq!(vote_reply(&step).vote_granted, granted);
        // The term moves on either way.
        assert_eq!(node.current_term(), 3);
    }
}

#[test]
fn a_stale_vote_request_is_refused() {
    let mut node = follower(2, vec![1, 3], 5, &[]);
    let step = node.receive(ask_for_vote(1, 4, (9, 4)));
    assert_eq!(
        vote_reply(&step),
        RequestVoteReply {
            term: 5,
            vote_granted: false,
            voter: 2,
        }
    );
    assert_eq!(node.current_term(), 5);
    assert_eq!(node.storage().voted_for(), None);
}

#[test]
fn a_higher_term_ends_office() {
    let higher = [
        ask_for_vote(3, 9, (0, 0)),
        append(9, (0, 0), vec![], 0),
        grant(9, 3, false),
        reply(9, 3, false, (None, 0), 0),
    ];
    for message in higher {
        let mut node = leader(1, vec![2, 3], 4, &[1, 4]);
        node.receive(message);
        assert_eq!(node.role(), RoleKind::Follower);
        assert_eq!(node.current_term(), 9);
    }
}

// ---- following ---------------------------------------------------------------

#[test]
fn a_stale_append_is_refused() {
    let mut node = follower(2, vec![1, 3], 5, &[1, 2]);
    let step = node.receive(append(4, (2, 2), vec![entry(4, 3, 30)], 2));
    assert_eq!(
        append_reply(&step),
        AppendEntriesReply {
            term: 5,
            success: false,
            follower: 2,
            conflict_term: None,
            conflict_index: 0,
            match_index: 0,
        }
    );
    assert_eq!(node.log_len(), 2);
    assert_eq!(node.commit_index(), 0);
    assert_eq!(node.leader_hint(), None);
}

#[test]
fn a_gap_in_the_log_is_reported() {
    let mut node = follower(2, vec![1, 3], 1, &[1, 1]);
    let refused = append_reply(&node.receive(append(1, (5, 1), vec![], 0)));
    assert!(!refused.success);
    assert_eq!((refused.conflict_term, refused.conflict_index), (None, 3));
    assert_eq!(node.log_len(), 2);
}

#[test]
fn a_conflict_names_the_start_of_its_run() {
    let mut node = follower(2, vec![1, 3], 4, &[1, 3, 3, 3, 4]);
    let refused = append_reply(&node.receive(append(5, (4, 2), vec![], 0)));
    assert!(!refused.success);
    assert_eq!((refused.conflict_term, refused.conflict_index), (Some(3), 2));
    // A run that reaches back to the start.
    let mut node = follower(2, vec![1, 3], 4, &[1, 1, 1]);
    let refused = append_reply(&node.receive(append(5, (3, 2), vec![], 0)));
    assert_eq!((refused.conflict_term, refused.conflict_index), (Some(1), 1));
}

#[test]
fn accepted_entries_are_held_and_repeating_them_changes_nothing() {
    let mut node = follower(2, vec![1, 3], 3, &[1, 1, 2, 2]);
    let sent = vec![entry(1, 2, 2), entry(3, 3, 30), entry(3, 4, 40)];
    let accepted = append_reply(&node.receive(append(3, (1, 1), sent.clone(), 0)));
    assert!(accepted.success);
    assert_eq!(accepted.match_index, 4);
    let terms: Vec<Option<Term>> = (0..6).map(|i| node.storage().term_at(i)).collect();
    assert_eq!(
        terms,
        vec![Some(0), Some(1), Some(1), Some(3), Some(3), None]
    );
    let held = node.storage().entries_from(1);
    node.receive(append(3, (1, 1), sent, 0));
    assert_eq!(node.storage().entries_from(1), held);
    // An older, shorter message does not cut the log.
    let late = append_reply(&node.receive(append(3, (1, 1), vec![entry(1, 2, 2)], 0)));
    assert_eq!(late.match_index, 2);
    assert_eq!(node.storage().entries_from(1), held);
}

#[test]
fn a_follower_commits_what_the_leader_committed_and_it_holds() {
    let mut node = follower(2, vec![1, 3], 1, &[1, 1, 1]);
    let step = node.receive(append(1, (2, 1), vec![], 9));
    // Only the first two are known to match.
    assert_eq!(node.commit_index(), 2);
    assert_eq!(node.last_applied(), 2);
    let applied: Vec<(LogIndex, Term, i32)> = step
        .committed
        .iter()
        .map(|c| (c.index, c.term, c.command))
        .collect();
    assert_eq!(applied, vec![(1, 1, 1), (2, 1, 2)]);
    // Nothing is handed out twice.
    let step = node.receive(append(1, (3, 1), vec![], 3));
    assert_eq!(step.committed.len(), 1);
    assert_eq!(step.committed[0].index, 3);
    assert!(node.receive(append(1, (3, 1), vec![], 3)).committed.is_empty());
}

#[test]
fn no_ops_are_not_handed_out() {
    let mut node = follower(2, vec![1, 3], 1, &[1]);
    let no_op = LogEntry {
        term: 1,
        index: 2,
        command: LogCommand::NoOp,
    };
    let step = node.receive(append(1, (1, 1), vec![no_op, entry(1, 3, 30)], 3));
    assert_eq!(node.last_applied(), 3);
    let applied: Vec<LogIndex> = step.committed.iter().map(|c| c.index).collect();
    assert_eq!(applied, vec![1, 3]);
}

#[test]
fn a_late_batch_lowers_the_commit_index_but_not_what_was_applied() {
    let terms = vec![1; 300];
    let mut node = follower(2, vec![1, 3], 1, &terms);
    node.receive(append(1, (300, 1), vec![], 300));
    assert_eq!((node.commit_index(), node.last_applied()), (300, 300));
    let batch: Vec<LogEntry<i32>> = (4..260).map(|i| entry(1, i, i as i32)).collect();
    let step = node.receive(append(1, (3, 1), batch, 310));
    assert_eq!((node.commit_index(), node.last_applied()), (259, 300));
    assert!(step.committed.is_empty());
    assert_eq!(node.log_len(), 300);
}

// ---- leading -----------------------------------------------------------------

#[test]
fn only_a_leader_takes_proposals() {
    let mut node = follower(2, vec![1, 3], 1, &[]);
    assert_eq!(node.propose(7), Err(NotLeaderError { leader_hint: None }));
    node.receive(append(1, (0, 0), vec![], 0));
    assert_eq!(
        node.propose(7),
        Err(NotLeaderError {
            leader_hint: Some(1)
        })
    );
    assert_eq!(node.log_len(), 0);
}

#[test]
fn a_leader_only_appends_to_its_log() {
    let mut node = leader(1, vec![2, 3], 4, &[1, 4]);
    let before = node.storage().entries_from(1);
    let (index, step) = node.propose(7).unwrap();
    assert_eq!(index, 3);
    assert_eq!(step.effects.len(), 2);
    assert!(step.committed.is_empty());
    let args = request(&step.effects[1]);
    assert_eq!((args.prev_log_index, args.prev_log_term), (2, 4));
    assert_eq!(args.entries, vec![entry(4, 3, 7)]);
    let after = node.storage().entries_from(1);
    assert_eq!(after[..2], before[..]);
    assert_eq!(after[2], entry(4, 3, 7));
}

#[test]
fn requests_hold_at_most_a_batch() {
    let terms = vec![1; 300];
    let mut node = leader(1, vec![2, 3], 1, &terms);
    let step = node.receive(reply(1, 2, false, (None, 1), 0));
    let args = request(&step.effects[0]);
    assert_eq!(args.prev_log_index, 0);
    assert_eq!(args.entries.len(), 256);
    // The rest follows as soon as that is acknowledged.
    let step = node.receive(reply(1, 2, true, (None, 0), 256));
    let args = request(&step.effects[0]);
    assert_eq!(args.prev_log_index, 256);
    assert_eq!(args.entries.len(), 44);
    let step = node.receive(reply(1, 2, true, (None, 0), 300));
    assert!(step.effects.is_empty());
}

#[test]
fn a_leader_backs_up_to_where_logs_may_agree() {
    // Next index after the last entry of the conflicting term.
    let mut node = leader(1, vec![2, 3], 5, &[1, 2, 2, 4, 5]);
    let step = node.receive(reply(5, 2, false, (Some(2), 2), 0));
    assert_eq!(request(&step.effects[0]).prev_log_index, 3);
    // No entry of that term: start from the follower's hint.
    let mut node = leader(1, vec![2, 3], 5, &[1, 2, 2, 4, 5]);
    let step = node.receive(reply(5, 2, false, (Some(3), 2), 0));
    assert_eq!(request(&step.effects[0]).prev_log_index, 1);
    // The follower's log is too short.
    let mut node = leader(1, vec![2, 3], 5, &[1, 2, 2, 4, 5]);
    let step = node.receive(reply(5, 2, false, (None, 3), 0));
    assert_eq!(request(&step.effects[0]).prev_log_index, 2);
    // Never before the first entry.
    let step = node.receive(reply(5, 2, false, (None, 0), 0));
    assert_eq!(request(&step.effects[0]).prev_log_index, 0);
}

#[test]
fn replies_of_strangers_and_of_earlier_terms_are_ignored() {
    let mut node = leader(1, vec![2, 3], 5, &[5]);
    assert_eq!(
        node.receive(reply(5, 9, true, (None, 0), 1)),
        StepResult::empty()
    );
    assert_eq!(
        node.receive(reply(4, 2, true, (None, 0), 1)),
        StepResult::empty()
    );
    assert_eq!(node.commit_index(), 0);
}

#[test]
fn a_majority_commits_entries_of_the_current_term() {
    let mut node = leader(1, vec![2, 3, 4, 5], 2, &[1, 2, 2]);
    node.receive(reply(2, 2, true, (None, 0), 3));
    assert_eq!(node.commit_index(), 0);
    let step = node.receive(reply(2, 3, true, (None, 0), 2));
    assert_eq!(node.commit_index(), 2);
    assert_eq!(step.committed.len(), 2);
    // A late acknowledgement of less takes nothing back.
    let step = node.receive(reply(2, 2, true, (None, 0), 1));
    assert_eq!(node.commit_index(), 2);
    assert!(step.committed.is_empty());
    let step = node.receive(reply(2, 4, true, (None, 0), 3));
    assert_eq!(node.commit_index(), 3);
    assert_eq!(step.committed.len(), 1);
}

// ---- determinism -------------------------------------------------------------

#[test]
fn the_same_inputs_give_the_same_outputs() {
    let run = || {
        let mut node = follower(2, vec![1, 3], 1, &[1]);
        let mut steps = Vec::new();
        for i in 0..60u64 {
            steps.push(node.tick());
            if i % 7 == 0 {
                steps.push(node.receive(append(1, (1, 1), vec![entry(1, 2, 5)], i)));
            }
            if i == 40 {
                steps.push(node.receive(ask_for_vote(3, 8, (4, 4))));
            }
        }
        (steps, node.current_term(), node.role())
    };
    assert_eq!(run(), run());
}

// ---- series of inputs --------------------------------------------------------

#[test]
fn a_request_delivered_twice_is_answered_twice_the_same() {
    let requests = [
        append(2, (0, 0), vec![], 3),
        append(3, (1, 1), vec![entry(3, 2, 20), entry(3, 3, 30)], 2),
        append(3, (2, 2), vec![entry(3, 3, 30)], 9),
        append(3, (2, 3), vec![], 0),
        append(3, (8, 3), vec![], 0),
    ];
    for request in requests {
        let mut node = follower(2, vec![1, 3], 3, &[1, 2, 2]);
        let first = node.receive(request.clone());
        let log = node.storage().entries_from(1);
        let seen = (node.current_term(), node.storage().voted_for(), node.role());
        let reached = (node.leader_hint(), node.commit_index(), node.last_applied());
        let second = node.receive(request);
        assert_eq!(second.effects, first.effects);
        assert!(second.committed.is_empty());
        assert_eq!(node.storage().entries_from(1), log);
        assert_eq!(
            (node.current_term(), node.storage().voted_for(), node.role()),
            seen
        );
        assert_eq!(
            (node.leader_hint(), node.commit_index(), node.last_applied()),
            reached
        );
    }
}

#[test]
fn a_leader_goes_on_behind_the_highest_acknowledgement() {
    let mut node = leader(1, vec![2, 3, 4, 5], 4, &[1, 1, 2, 4, 4, 4]);
    for (acknowledged, next_prev) in [(2, 2), (4, 4), (1, 4), (3, 4), (5, 5)] {
        let step = node.receive(reply(4, 2, true, (None, 0), acknowledged));
        assert_eq!(step.effects.len(), 1);
        let args = request(&step.effects[0]);
        assert_eq!(args.prev_log_index, next_prev);
        assert_eq!(args.entries.len() as u64, 6 - next_prev);
        assert_eq!(args.prev_log_term, node.storage().term_at(next_prev).unwrap());
    }
    for acknowledged in [6, 2] {
        let step = node.receive(reply(4, 2, true, (None, 0), acknowledged));
        assert!(step.effects.is_empty());
    }
}

#[test]
fn the_beat_is_kept_whatever_comes_in_between() {
    for heartbeat_ticks in [0u64, 1, 3, 4] {
        let config = RaftConfig {
            heartbeat_ticks,
            ..RaftConfig::default()
        };
        let storage: MemStorage<i32> = MemStorage::default();
        let mut node = RaftNode::new(1, vec![2, 3], storage, 1, config);
        node.start_election();
        node.receive(grant(1, 2, true));
        assert!(node.is_leader());
        for k in 1..40u64 {
            if k % 2 == 0 {
                node.propose(k as i32).unwrap();
            }
            if k % 5 == 0 {
                let last = node.log_len();
                node.receive(reply(1, 3, true, (None, 0), last));
            }
            let to: Vec<NodeId> = node.tick().effects.iter().map(|e| e.to).collect();
            if k % heartbeat_ticks.max(1) == 0 {
                assert_eq!(to, vec![2, 3]);
            } else {
                assert!(to.is_empty());
            }
        }
    }
}

#[test]
fn a_vote_granted_in_an_earlier_candidacy_does_not_count() {
    let mut node = follower(1, vec![2, 3, 4, 5], 0, &[]);
    node.start_election();
    node.receive(grant(1, 2, true));
    node.start_election();
    node.receive(grant(2, 3, true));
    node.receive(grant(1, 4, true));
    assert_eq!(node.role(), RoleKind::Candidate);
    node.receive(grant(2, 2, true));
    assert!(node.is_leader());
    assert_eq!(node.current_term(), 2);
}

#[test]
fn what_is_ignored_may_be_anything() {
    // A stranger's reply, whatever it claims.
    let mut node = leader(1, vec![2, 3], 5, &[5]);
    let step = node.receive(reply(5, 9, true, (None, 0), u64::MAX));
    assert_eq!(step, StepResult::empty());
    // The last term there is: the node can still wait and answer in it.
    let mut node = follower(2, vec![1, 3], u64::MAX, &[1]);
    assert_eq!(node.tick(), StepResult::empty());
    let step = node.receive(append(u64::MAX, (1, 1), vec![], 0));
    assert!(append_reply(&step).success);
}
