//! The core Raft state machine: leader election + log replication.
//!
//! `RaftNode` is deliberately I/O-free and time-free: it never sleeps, never
//! touches a clock, never opens a socket. It only reacts to two kinds of
//! input — [`RaftNode::tick`] (one logical unit of time has passed) and
//! [`RaftNode::receive`] (a message arrived) — and produces a
//! [`StepResult`] describing what to send and what has newly been committed.
//! The contracts below say exactly which, as functions of the node's state
//! (see [`crate::protocol`]): the same inputs always produce the same
//! outputs.
//!
//! The algorithm follows the Raft paper (Ongaro & Ousterhout, "In Search of
//! an Understandable Consensus Algorithm", Figure 2) directly: RequestVote /
//! AppendEntries handling, the log-matching / conflict-truncation rule
//! (§5.3), the up-to-date-log check that gates vote granting (§5.4.1), and
//! the "commit only via a current-term entry" rule that is the crux of
//! Raft's safety proof (§5.4.2, and the Figure 8 hazard it closes).

use std::collections::{HashMap, HashSet};

use vstd::prelude::*;

use rand::rngs::StdRng;

use crate::protocol::{
    accepted, append_received, append_reply, append_reply_received, append_request, append_requests,
    appended, backtracked, can_receive, can_stand, can_tick, candidacy, caught_up, commands_between,
    commit_advanced, divergence, elected, election_started, end_of_term, following, fresh_node,
    in_office, majority_with, merged, moved_to_term, nothing, only, proposed, received, run_start,
    sound_node, stepped_down, ticked, timer_reset, vote_reply, vote_reply_received, vote_request,
    vote_requested, vote_requests, wins_with, NodeState, Standing, Step, MAX_BATCH,
};
use crate::quorum::highest_reached;
use crate::random::{draw_in_range, generator_from_seed, seeded_generator};
use crate::rpc::{
    messages, AppendEntriesArgs, AppendEntriesReply, Envelope, LogIndex, Message, NodeId, Payload,
    RequestVoteArgs, RequestVoteReply, Rpc, Term,
};
use crate::storage::{
    clone_is_exact, last_term, lemma_entries_cloned_exactly, term_at, LogCommand, LogEntry, Storage,
};

verus! {

#[derive(Debug, Clone, Copy, PartialEq, Eq, Structural)]
pub enum RoleKind {
    Follower,
    Candidate,
    Leader,
}

/// What a node is, and a leader's books: the next entry to send to each peer,
/// and how far each is known to match.
#[derive(Debug)]
pub enum Role {
    Follower,
    Candidate,
    Leader { next_index: HashMap<NodeId, LogIndex>, match_index: HashMap<NodeId, LogIndex> },
}

impl Role {
    pub open spec fn standing(self) -> Standing {
        match self {
            Role::Follower => Standing::Follower,
            Role::Candidate => Standing::Candidate,
            Role::Leader { next_index, match_index } => Standing::Leader {
                next_index: next_index@,
                match_index: match_index@,
            },
        }
    }

    pub fn kind(&self) -> (kind: RoleKind)
        ensures
            kind == role_kind(self.standing()),
    {
        match self {
            Role::Follower => RoleKind::Follower,
            Role::Candidate => RoleKind::Candidate,
            Role::Leader { .. } => RoleKind::Leader,
        }
    }
}

/// The role without a leader's books.
pub open spec fn role_kind(standing: Standing) -> RoleKind {
    match standing {
        Standing::Follower => RoleKind::Follower,
        Standing::Candidate => RoleKind::Candidate,
        Standing::Leader { .. } => RoleKind::Leader,
    }
}

#[derive(Debug, Clone, Copy)]
pub struct RaftConfig {
    /// Minimum randomized election timeout, in ticks.
    pub min_election_ticks: u64,
    /// Maximum randomized election timeout, in ticks.
    pub max_election_ticks: u64,
    /// Leader heartbeat / replication period, in ticks. Must be well below
    /// `min_election_ticks` or followers will time out between heartbeats.
    pub heartbeat_ticks: u64,
}

impl Default for RaftConfig {
    fn default() -> (config: Self)
        ensures
            config == (RaftConfig {
                min_election_ticks: 10,
                max_election_ticks: 20,
                heartbeat_ticks: 3,
            }),
    {
        RaftConfig { min_election_ticks: 10, max_election_ticks: 20, heartbeat_ticks: 3 }
    }
}

#[derive(Debug, Clone, PartialEq, Eq)]
pub struct Committed<C> {
    pub index: LogIndex,
    pub term: Term,
    pub command: C,
}

#[derive(Debug, Clone, PartialEq, Eq, Default)]
pub struct StepResult<C> {
    pub effects: Vec<Envelope<C>>,
    pub committed: Vec<Committed<C>>,
}

impl<C> View for StepResult<C> {
    type V = Step<C>;

    open spec fn view(&self) -> Step<C> {
        Step { effects: messages(self.effects@), committed: self.committed@ }
    }
}

impl<C> StepResult<C> {
    pub fn empty() -> (result: Self)
        ensures
            result@ == nothing::<C>(),
    {
        let result = StepResult { effects: Vec::new(), committed: Vec::new() };
        assert(result@ =~= nothing::<C>());
        result
    }

    pub fn single(env: Envelope<C>) -> (result: Self)
        ensures
            result@ == only(env@),
    {
        let mut effects: Vec<Envelope<C>> = Vec::new();
        effects.push(env);
        let result = StepResult { effects, committed: Vec::new() };
        assert(result@ =~= only(env@));
        result
    }
}

#[derive(Debug, Clone, Copy, PartialEq, Eq)]
pub struct NotLeaderError {
    pub leader_hint: Option<NodeId>,
}

pub struct RaftNode<C: Clone + std::fmt::Debug, S: Storage<C>> {
    pub id: NodeId,
    peers: Vec<NodeId>,
    storage: S,
    role: Role,
    commit_index: LogIndex,
    last_applied: LogIndex,
    leader_id: Option<NodeId>,
    votes_received: HashSet<NodeId>,
    election_elapsed: u64,
    election_timeout: u64,
    heartbeat_elapsed: u64,
    config: RaftConfig,
    rng: StdRng,
    _marker: std::marker::PhantomData<C>,
}

impl<C: Clone + std::fmt::Debug, S: Storage<C>> View for RaftNode<C, S> {
    type V = NodeState<C>;

    closed spec fn view(&self) -> NodeState<C> {
        NodeState {
            id: self.id,
            peers: self.peers@,
            term: self.storage@.term,
            voted_for: self.storage@.voted_for,
            log: self.storage@.log,
            standing: self.role.standing(),
            commit_index: self.commit_index,
            last_applied: self.last_applied,
            leader_id: self.leader_id,
            votes: self.votes_received@,
            election_elapsed: self.election_elapsed,
            election_timeout: self.election_timeout,
            heartbeat_elapsed: self.heartbeat_elapsed,
            config: self.config,
            rng: self.rng,
        }
    }
}

impl<C: Clone + std::fmt::Debug, S: Storage<C>> RaftNode<C, S> {
    /// What holds of a node between any two inputs.
    pub open spec fn wf(&self) -> bool {
        &&& clone_is_exact::<C>()
        &&& sound_node(self@)
    }

    pub fn new(id: NodeId, peers: Vec<NodeId>, storage: S, seed: u64, config: RaftConfig) -> (node:
        Self)
        requires
            clone_is_exact::<C>(),
            config.min_election_ticks <= config.max_election_ticks,
            peers@.len() < usize::MAX,
        ensures
            node.wf(),
            node@ == fresh_node(
                id,
                peers@,
                storage@.term,
                storage@.voted_for,
                storage@.log,
                seeded_generator(seed),
                config,
            ),
    {
        let mut rng = generator_from_seed(seed);
        let election_timeout: u64 = draw_in_range(
            &mut rng,
            config.min_election_ticks,
            config.max_election_ticks,
        );
        RaftNode {
            id,
            peers,
            storage,
            role: Role::Follower,
            commit_index: 0,
            last_applied: 0,
            leader_id: None,
            votes_received: HashSet::new(),
            election_elapsed: 0,
            election_timeout,
            heartbeat_elapsed: 0,
            config,
            rng,
            _marker: std::marker::PhantomData,
        }
    }

    pub fn role(&self) -> (kind: RoleKind)
        ensures
            kind == role_kind(self@.standing),
    {
        self.role.kind()
    }

    pub fn is_leader(&self) -> (leads: bool)
        ensures
            leads == (self@.standing is Leader),
    {
        matches!(self.role, Role::Leader { .. })
    }

    pub fn current_term(&self) -> (term: Term)
        ensures
            term == self@.term,
    {
        self.storage.current_term()
    }

    pub fn commit_index(&self) -> (index: LogIndex)
        ensures
            index == self@.commit_index,
    {
        self.commit_index
    }

    pub fn last_applied(&self) -> (index: LogIndex)
        ensures
            index == self@.last_applied,
    {
        self.last_applied
    }

    pub fn log_len(&self) -> (index: LogIndex)
        ensures
            index == self@.log.len(),
    {
        self.storage.last_index()
    }

    pub fn leader_hint(&self) -> (hint: Option<NodeId>)
        ensures
            hint == self@.leader_id,
    {
        self.leader_id
    }

    pub fn storage(&self) -> (storage: &S)
        ensures
            storage@.term == self@.term,
            storage@.voted_for == self@.voted_for,
            storage@.log == self@.log,
    {
        &self.storage
    }

    fn majority(&self) -> (majority: usize)
        requires
            self.wf(),
        ensures
            majority == majority_with(self@.peers.len()),
    {
        (self.peers.len() + 1) / 2 + 1
    }

    fn reset_election_timer(&mut self)
        requires
            old(self).wf(),
        ensures
            final(self).wf(),
            final(self)@ == timer_reset(old(self)@),
    {
        self.election_elapsed = 0;
        self.election_timeout = draw_in_range(
            &mut self.rng,
            self.config.min_election_ticks,
            self.config.max_election_ticks,
        );
        assert(self@ =~= timer_reset(old(self)@));
    }

    fn step_down(&mut self)
        requires
            old(self).wf(),
        ensures
            final(self).wf(),
            final(self)@ == stepped_down(old(self)@),
    {
        self.role = Role::Follower;
        self.votes_received.clear();
        assert(self@ =~= stepped_down(old(self)@));
    }

    /// Follow in a higher term.
    fn move_to_term(&mut self, term: Term)
        requires
            old(self).wf(),
        ensures
            final(self).wf(),
            final(self)@ == moved_to_term(old(self)@, term),
    {
        self.storage.set_term_and_vote(term, None);
        self.step_down();
        self.leader_id = None;
        assert(self@ =~= moved_to_term(old(self)@, term));
    }

    /// Move `last_applied` up to `commit_index`, returning the real
    /// (non-`NoOp`) commands that just became committed, in log order.
    fn advance_last_applied_and_collect(&mut self) -> (collected: Vec<Committed<C>>)
        requires
            old(self).wf(),
        ensures
            final(self).wf(),
            (final(self)@, collected@) == caught_up(old(self)@),
    {
        let mut collected: Vec<Committed<C>> = Vec::new();
        let ghost start = self.last_applied;
        while self.last_applied < self.commit_index
            invariant
                self.wf(),
                start == old(self)@.last_applied,
                start <= self.last_applied,
                self.last_applied <= self.commit_index || self.last_applied == start,
                self@ == (NodeState { last_applied: self.last_applied, ..old(self)@ }),
                collected@ == commands_between(self@.log, start as int, self.last_applied as int),
            decreases self.commit_index - self.last_applied,
        {
            self.last_applied = self.last_applied + 1;
            if let Some(entry) = self.storage.entry(self.last_applied) {
                if let LogCommand::Command(command) = &entry.command {
                    let copy = command.clone();
                    proof {
                        assert(cloned::<C>(*command, copy));
                    }
                    collected.push(
                        Committed { index: entry.index, term: entry.term, command: copy },
                    );
                }
            }
            assert(self@ =~= (NodeState { last_applied: self.last_applied, ..old(self)@ }));
        }
        assert(self@ =~= caught_up(old(self)@).0);
        collected
    }

    // ---- log replication, leader's side --------------------------------------

    fn build_append_entries_for(&self, peer: NodeId) -> (env: Option<Envelope<C>>)
        requires
            self.wf(),
        ensures
            match self@.standing {
                Standing::Leader { next_index, match_index } => env is Some && env->0@
                    == append_request(self@, next_index, peer),
                _ => env is None,
            },
    {
        let next: LogIndex = match &self.role {
            Role::Leader { next_index, .. } => match next_index.get(&peer) {
                Some(next) => *next,
                None => 1,
            },
            _ => {
                return None;
            },
        };
        let prev_log_index: LogIndex = if next > 0 {
            next - 1
        } else {
            0
        };
        let prev_log_term: Term = match self.storage.term_at(prev_log_index) {
            Some(term) => term,
            None => 0,
        };
        let mut entries = self.storage.entries_from(next);
        proof {
            lemma_entries_cloned_exactly(
                crate::storage::suffix_from(self@.log, next as int),
                entries@,
            );
        }
        entries.truncate(MAX_BATCH);
        let env = Envelope {
            from: self.id,
            to: peer,
            rpc: Rpc::AppendEntries(
                AppendEntriesArgs {
                    term: self.storage.current_term(),
                    leader_id: self.id,
                    prev_log_index,
                    prev_log_term,
                    entries,
                    leader_commit: self.commit_index,
                },
            ),
        };
        proof {
            let next_index = self@.standing->Leader_next_index;
            assert(env@ =~= append_request(self@, next_index, peer));
        }
        Some(env)
    }

    fn replicate_to_all(&self) -> (effects: Vec<Envelope<C>>)
        requires
            self.wf(),
        ensures
            messages(effects@) == append_requests(self@),
    {
        let mut effects: Vec<Envelope<C>> = Vec::new();
        let mut i: usize = 0;
        while i < self.peers.len()
            invariant
                self.wf(),
                i <= self@.peers.len(),
                self@.peers == self.peers@,
                match self@.standing {
                    Standing::Leader { next_index, match_index } => effects@.len() == i && forall|
                        k: int,
                    |
                        0 <= k < i ==> (#[trigger] effects@[k])@ == append_request(
                            self@,
                            next_index,
                            self@.peers[k],
                        ),
                    _ => effects@.len() == 0,
                },
            decreases self.peers.len() - i,
        {
            if let Some(env) = self.build_append_entries_for(self.peers[i]) {
                effects.push(env);
            }
            i += 1;
        }
        assert(messages(effects@) =~= append_requests(self@));
        effects
    }

    /// The core Raft safety rule (§5.4.2): a leader may only advance
    /// `commit_index` to N if a majority of `match_index` values are >= N
    /// **and** the entry at N was written during the leader's *current*
    /// term. Committing a majority-replicated entry from an *earlier* term
    /// purely by vote count is the exact hazard the paper's Figure 8
    /// illustrates — it can be silently overwritten by a later leader.
    fn try_advance_commit_index(&mut self) -> (committed: Vec<Committed<C>>)
        requires
            old(self).wf(),
        ensures
            final(self).wf(),
            (final(self)@, committed@) == commit_advanced(old(self)@),
    {
        let last_index: LogIndex = self.storage.last_index();
        let majority: usize = self.majority();
        let reached: Option<LogIndex> = match &self.role {
            Role::Leader { match_index, .. } => highest_reached(match_index, last_index, majority),
            _ => {
                return Vec::new();
            },
        };
        if let Some(index) = reached {
            if index > self.commit_index {
                if let Some(term) = self.storage.term_at(index) {
                    if term == self.storage.current_term() {
                        self.commit_index = index;
                        assert(self@ =~= (NodeState { commit_index: index, ..old(self)@ }));
                        return self.advance_last_applied_and_collect();
                    }
                }
            }
        }
        Vec::new()
    }

    /// Append one entry of the current term to the log.
    fn append_own(&mut self, command: LogCommand<C>) -> (index: LogIndex)
        requires
            old(self).wf(),
            old(self)@.log.len() < u64::MAX,
        ensures
            final(self).wf(),
            index == old(self)@.log.len() + 1,
            final(self)@ == appended(old(self)@, command),
    {
        let term: Term = self.storage.current_term();
        let index: LogIndex = self.storage.last_index() + 1;
        let mut entries: Vec<LogEntry<C>> = Vec::new();
        entries.push(LogEntry { term, index, command });
        self.storage.append(entries);
        assert(self@.log =~= appended(old(self)@, command).log);
        assert(self@ =~= appended(old(self)@, command));
        index
    }

    pub fn propose(&mut self, command: C) -> (outcome: Result<
        (LogIndex, StepResult<C>),
        NotLeaderError,
    >)
        requires
            old(self).wf(),
            old(self)@.standing is Leader ==> old(self)@.log.len() < u64::MAX,
        ensures
            final(self).wf(),
            match outcome {
                Ok((index, step)) => {
                    &&& old(self)@.standing is Leader
                    &&& index == old(self)@.log.len() + 1
                    &&& (final(self)@, step@) == proposed(old(self)@, command)
                },
                Err(error) => {
                    &&& !(old(self)@.standing is Leader)
                    &&& error.leader_hint == old(self)@.leader_id
                    &&& final(self)@ == old(self)@
                },
            },
    {
        if !self.is_leader() {
            return Err(NotLeaderError { leader_hint: self.leader_id });
        }
        let index: LogIndex = self.append_own(LogCommand::Command(command));
        let effects = self.replicate_to_all();
        // A single-node cluster can commit its own proposal immediately.
        let committed = self.try_advance_commit_index();
        Ok((index, StepResult { effects, committed }))
    }

    fn compute_backtrack_next_index(
        &self,
        conflict_term: Option<Term>,
        conflict_index: LogIndex,
    ) -> (next: LogIndex)
        requires
            self.wf(),
            conflict_term == Some(last_term(self@.log)) ==> self@.log.len() < u64::MAX,
        ensures
            next == backtracked(self@.log, conflict_term, conflict_index),
    {
        let wanted: Term = match conflict_term {
            Some(term) => term,
            None => {
                return conflict_index;
            },
        };
        let mut index: LogIndex = self.storage.last_index();
        while index > 0
            invariant
                conflict_term == Some(wanted),
                index <= self@.log.len() <= u64::MAX,
                wanted == last_term(self@.log) ==> self@.log.len() < u64::MAX,
                self@.log == self.storage@.log,
                end_of_term(self@.log, wanted, conflict_index, self@.log.len() as int)
                    == end_of_term(self@.log, wanted, conflict_index, index as int),
            decreases index,
        {
            if let Some(term) = self.storage.term_at(index) {
                if term == wanted {
                    assert(index == self@.log.len() ==> term == last_term(self@.log));
                    return index + 1;
                }
                if term < wanted {
                    return conflict_index;
                }
            }
            index -= 1;
        }
        conflict_index
    }

    fn handle_append_entries_reply(&mut self, reply: AppendEntriesReply) -> (step: StepResult<C>)
        requires
            old(self).wf(),
            can_receive(
                old(self)@,
                Message {
                    from: reply.follower,
                    to: old(self)@.id,
                    payload: Payload::AppendEntriesReply(reply),
                },
            ),
        ensures
            final(self).wf(),
            (final(self)@, step@) == append_reply_received(old(self)@, reply),
    {
        if reply.term > self.storage.current_term() {
            self.move_to_term(reply.term);
            return StepResult::empty();
        }
        if reply.term < self.storage.current_term() {
            return StepResult::empty();
        }
        let from: NodeId = reply.follower;
        let is_known_peer: bool = match &self.role {
            Role::Leader { next_index, .. } => next_index.contains_key(&from),
            _ => false,
        };
        if !is_known_peer {
            return StepResult::empty();
        }
        let ghost before = self@;
        let new_next: LogIndex = if reply.success {
            0
        } else {
            self.compute_backtrack_next_index(reply.conflict_term, reply.conflict_index)
        };
        if let Role::Leader { next_index, match_index } = &mut self.role {
            if reply.success {
                let known: LogIndex = match match_index.get(&from) {
                    Some(index) => *index,
                    None => 0,
                };
                let matched: LogIndex = if known < reply.match_index {
                    reply.match_index
                } else {
                    known
                };
                match_index.insert(from, matched);
                next_index.insert(from, matched + 1);
            } else {
                next_index.insert(
                    from,
                    if new_next < 1 {
                        1
                    } else {
                        new_next
                    },
                );
            }
        }
        proof {
            let next_index = before.standing->Leader_next_index;
            let match_index = before.standing->Leader_match_index;
            assert(self@.standing =~= crate::protocol::reply_noted(
                before,
                next_index,
                match_index,
                reply,
            ));
            assert(self@ =~= (NodeState { standing: self@.standing, ..before }));
        }
        let mut effects: Vec<Envelope<C>> = Vec::new();
        // If there's more to send (new entries, or we need to retry after a
        // conflict), fire off another AppendEntries immediately rather than
        // waiting for the next heartbeat tick.
        if let Some(env) = self.build_append_entries_for(from) {
            let needs_resend: bool = !reply.success || match &self.role {
                Role::Leader { next_index, .. } => match next_index.get(&from) {
                    Some(next) => *next <= self.storage.last_index(),
                    None => 1 <= self.storage.last_index(),
                },
                _ => false,
            };
            if needs_resend {
                effects.push(env);
            }
        }
        assert(messages(effects@) =~= crate::protocol::follow_up(self@, reply));
        let committed = self.try_advance_commit_index();
        StepResult { effects, committed }
    }

    // ---- log replication, follower's side -------------------------------------

    fn reply_append(
        &self,
        to: NodeId,
        success: bool,
        conflict_term: Option<Term>,
        conflict_index: LogIndex,
        match_index: LogIndex,
    ) -> (env: Envelope<C>)
        ensures
            env@ == append_reply(
                self@,
                to,
                success,
                conflict_term,
                conflict_index,
                match_index,
            ),
    {
        Envelope {
            from: self.id,
            to,
            rpc: Rpc::AppendEntriesReply(
                AppendEntriesReply {
                    term: self.storage.current_term(),
                    success,
                    follower: self.id,
                    conflict_term,
                    conflict_index,
                    match_index,
                },
            ),
        }
    }

    /// The first index of the run of equal terms that ends at `index`.
    fn first_of_run(&self, index: LogIndex) -> (first: LogIndex)
        requires
            1 <= index <= self@.log.len(),
        ensures
            first == run_start(self@.log, index as int),
    {
        let mut first: LogIndex = index;
        while first > 1
            invariant
                1 <= first <= index <= self@.log.len(),
                self@.log == self.storage@.log,
                run_start(self@.log, index as int) == run_start(self@.log, first as int),
            decreases first,
        {
            if self.storage.term_at(first - 1) != self.storage.term_at(first) {
                return first;
            }
            first -= 1;
        }
        first
    }

    /// Take in the entries that follow index `prev`.
    fn merge_entries(&mut self, prev: LogIndex, entries: Vec<LogEntry<C>>)
        requires
            old(self).wf(),
            prev <= old(self)@.log.len(),
            prev + entries@.len() <= u64::MAX,
        ensures
            final(self).wf(),
            final(self)@ == (NodeState {
                log: merged(old(self)@.log, prev as int, entries@),
                ..old(self)@
            }),
    {
        let mut entries = entries;
        let ghost sent = entries@;
        let mut offset: usize = 0;
        while offset < entries.len()
            invariant
                prev + entries@.len() <= u64::MAX,
                offset <= entries@.len(),
                self@.log == self.storage@.log,
                divergence(self@.log, prev as int, entries@, 0) == divergence(
                    self@.log,
                    prev as int,
                    entries@,
                    offset as int,
                ),
            ensures
                offset <= entries@.len(),
                divergence(self@.log, prev as int, entries@, 0) == offset,
            decreases entries@.len() - offset,
        {
            let index: LogIndex = prev + 1 + offset as u64;
            match self.storage.term_at(index) {
                Some(term) => {
                    if term != entries[offset].term {
                        break;
                    }
                },
                None => {
                    break;
                },
            }
            offset += 1;
        }
        if offset < entries.len() {
            let rest = entries.split_off(offset);
            self.storage.truncate_from(prev + 1 + offset as u64);
            self.storage.append(rest);
        }
        assert(self@ =~= (NodeState {
            log: merged(old(self)@.log, prev as int, sent),
            ..old(self)@
        }));
    }

    fn handle_append_entries(&mut self, from: NodeId, args: AppendEntriesArgs<C>) -> (step:
        StepResult<C>)
        requires
            old(self).wf(),
            can_receive(
                old(self)@,
                Message { from, to: old(self)@.id, payload: Payload::AppendEntries(args@) },
            ),
        ensures
            final(self).wf(),
            (final(self)@, step@) == append_received(old(self)@, from, args@),
    {
        if args.term < self.storage.current_term() {
            return StepResult::single(self.reply_append(from, false, None, 0, 0));
        }
        if args.term > self.storage.current_term() {
            self.storage.set_term_and_vote(args.term, None);
        }
        // A valid current-term leader exists: become/stay follower.
        self.step_down();
        self.leader_id = Some(args.leader_id);
        self.reset_election_timer();
        let ghost followed = self@;
        assert(followed =~= following(old(self)@, args@));

        if args.prev_log_index > 0 {
            match self.storage.term_at(args.prev_log_index) {
                None => {
                    let conflict_index: LogIndex = self.storage.last_index() + 1;
                    return StepResult::single(
                        self.reply_append(from, false, None, conflict_index, 0),
                    );
                },
                Some(term) => {
                    if term != args.prev_log_term {
                        let first: LogIndex = self.first_of_run(args.prev_log_index);
                        return StepResult::single(
                            self.reply_append(from, false, Some(term), first, 0),
                        );
                    }
                },
            }
        }
        let last_new_index: LogIndex = args.prev_log_index + args.entries.len() as u64;
        let ghost sent = args@;
        let leader_commit: LogIndex = args.leader_commit;
        self.merge_entries(args.prev_log_index, args.entries);
        if leader_commit > self.commit_index {
            self.commit_index = if leader_commit < last_new_index {
                leader_commit
            } else {
                last_new_index
            };
        }
        assert(self@ =~= accepted(followed, sent));
        let committed = self.advance_last_applied_and_collect();
        let reply = self.reply_append(from, true, None, 0, last_new_index);
        let mut step = StepResult::single(reply);
        step.committed = committed;
        step
    }

    // ---- election -------------------------------------------------------------

    /// Take up the leader's role for the current term: send from the end of
    /// the own log, with nothing known to match yet.
    pub fn take_office(&mut self)
        requires
            old(self).wf(),
            old(self)@.log.len() < u64::MAX,
        ensures
            final(self).wf(),
            final(self)@ == in_office(old(self)@),
    {
        let last_index: LogIndex = self.storage.last_index();
        let mut next_index: HashMap<NodeId, LogIndex> = HashMap::new();
        let mut match_index: HashMap<NodeId, LogIndex> = HashMap::new();
        let mut i: usize = 0;
        while i < self.peers.len()
            invariant
                i <= self.peers@.len(),
                last_index < u64::MAX,
                forall|peer: NodeId| #[trigger]
                    next_index@.contains_key(peer) <==> self.peers@.take(i as int).contains(peer),
                forall|peer: NodeId| #[trigger]
                    match_index@.contains_key(peer) <==> self.peers@.take(i as int).contains(peer),
                forall|peer: NodeId| #[trigger]
                    next_index@.contains_key(peer) ==> next_index@[peer] == last_index + 1,
                forall|peer: NodeId| #[trigger]
                    match_index@.contains_key(peer) ==> match_index@[peer] == 0,
            decreases self.peers.len() - i,
        {
            let peer: NodeId = self.peers[i];
            proof {
                let seen = self.peers@.take(i as int);
                let more = self.peers@.take(i as int + 1);
                assert(more =~= seen.push(peer));
                assert forall|p: NodeId| #[trigger]
                    more.contains(p) <==> seen.contains(p) || p == peer by {
                    if seen.contains(p) {
                        let k = choose|k: int| 0 <= k < seen.len() && seen[k] == p;
                        assert(more[k] == p);
                    }
                    assert(more[i as int] == peer);
                }
            }
            next_index.insert(peer, last_index + 1);
            match_index.insert(peer, 0);
            i += 1;
        }
        assert(self.peers@.take(i as int) =~= self.peers@);
        self.role = Role::Leader { next_index, match_index };
        self.leader_id = Some(self.id);
        self.heartbeat_elapsed = 0;
        assert(self@.standing =~= in_office(old(self)@).standing);
        assert(self@ =~= in_office(old(self)@));
    }

    /// Paper §8: append a no-op so a new leader can eventually commit
    /// entries from earlier terms (see the doc comment on `LogCommand`).
    pub fn append_no_op(&mut self) -> (index: LogIndex)
        requires
            old(self).wf(),
            old(self)@.log.len() < u64::MAX,
        ensures
            final(self).wf(),
            index == old(self)@.log.len() + 1,
            final(self)@ == appended(old(self)@, LogCommand::NoOp),
    {
        self.append_own(LogCommand::NoOp)
    }

    fn become_leader(&mut self) -> (step: StepResult<C>)
        requires
            old(self).wf(),
            old(self)@.log.len() < u64::MAX,
        ensures
            final(self).wf(),
            (final(self)@, step@) == elected(old(self)@),
    {
        self.take_office();
        let _ = self.append_no_op();
        let effects = self.replicate_to_all();
        let committed = self.try_advance_commit_index();
        StepResult { effects, committed }
    }

    /// Stand for election in the next term.
    pub fn start_election(&mut self) -> (step: StepResult<C>)
        requires
            old(self).wf(),
            can_stand(old(self)@),
        ensures
            final(self).wf(),
            (final(self)@, step@) == election_started(old(self)@),
    {
        let new_term: Term = self.storage.current_term() + 1;
        self.storage.set_term_and_vote(new_term, Some(self.id));
        self.role = Role::Candidate;
        let mut votes: HashSet<NodeId> = HashSet::new();
        votes.insert(self.id);
        self.votes_received = votes;
        self.leader_id = None;
        self.reset_election_timer();
        assert(self@ =~= candidacy(old(self)@));

        if self.peers.len() == 0 {
            return self.become_leader();
        }
        let last_log_index: LogIndex = self.storage.last_index();
        let last_log_term: Term = self.storage.last_term();
        let mut effects: Vec<Envelope<C>> = Vec::new();
        let mut i: usize = 0;
        while i < self.peers.len()
            invariant
                i <= self.peers@.len(),
                self.peers@ == self@.peers,
                new_term == self@.term,
                last_log_index == self@.log.len(),
                last_log_term == last_term(self@.log),
                self.id == self@.id,
                effects@.len() == i,
                forall|k: int|
                    0 <= k < i ==> (#[trigger] effects@[k])@ == vote_request(
                        self@,
                        self@.peers[k],
                    ),
            decreases self.peers.len() - i,
        {
            effects.push(
                Envelope {
                    from: self.id,
                    to: self.peers[i],
                    rpc: Rpc::RequestVote(
                        RequestVoteArgs {
                            term: new_term,
                            candidate_id: self.id,
                            last_log_index,
                            last_log_term,
                        },
                    ),
                },
            );
            i += 1;
        }
        assert(messages(effects@) =~= vote_requests(self@));
        StepResult { effects, committed: Vec::new() }
    }

    fn reply_vote(&self, to: NodeId, granted: bool) -> (env: Envelope<C>)
        ensures
            env@ == vote_reply(self@, to, granted),
    {
        Envelope {
            from: self.id,
            to,
            rpc: Rpc::RequestVoteReply(
                RequestVoteReply {
                    term: self.storage.current_term(),
                    vote_granted: granted,
                    voter: self.id,
                },
            ),
        }
    }

    fn handle_request_vote(&mut self, from: NodeId, args: RequestVoteArgs) -> (step: StepResult<C>)
        requires
            old(self).wf(),
        ensures
            final(self).wf(),
            (final(self)@, step@) == vote_requested(old(self)@, from, args),
    {
        if args.term < self.storage.current_term() {
            return StepResult::single(self.reply_vote(from, false));
        }
        if args.term > self.storage.current_term() {
            self.move_to_term(args.term);
        }
        let ghost asked = self@;
        let can_vote: bool = match self.storage.voted_for() {
            None => true,
            Some(candidate) => candidate == args.candidate_id,
        };
        let last_term: Term = self.storage.last_term();
        let up_to_date: bool = args.last_log_term > last_term || (args.last_log_term == last_term
            && args.last_log_index >= self.storage.last_index());

        if can_vote && up_to_date {
            self.storage.set_term_and_vote(self.storage.current_term(), Some(args.candidate_id));
            assert(self@ =~= (NodeState { voted_for: Some(args.candidate_id), ..asked }));
            self.reset_election_timer();
            StepResult::single(self.reply_vote(from, true))
        } else {
            StepResult::single(self.reply_vote(from, false))
        }
    }

    fn handle_request_vote_reply(&mut self, reply: RequestVoteReply) -> (step: StepResult<C>)
        requires
            old(self).wf(),
            wins_with(old(self)@, reply) ==> old(self)@.log.len() < u64::MAX,
        ensures
            final(self).wf(),
            (final(self)@, step@) == vote_reply_received(old(self)@, reply),
    {
        if reply.term > self.storage.current_term() {
            self.move_to_term(reply.term);
            return StepResult::empty();
        }
        if !matches!(self.role, Role::Candidate) || reply.term != self.storage.current_term() {
            return StepResult::empty();
        }
        if reply.vote_granted {
            self.votes_received.insert(reply.voter);
            assert(self@ =~= (NodeState {
                votes: old(self)@.votes.insert(reply.voter),
                ..old(self)@
            }));
            if self.votes_received.len() >= self.majority() {
                return self.become_leader();
            }
        }
        StepResult::empty()
    }

    // ---- driving inputs -------------------------------------------------------

    pub fn tick(&mut self) -> (step: StepResult<C>)
        requires
            old(self).wf(),
            can_tick(old(self)@),
        ensures
            final(self).wf(),
            (final(self)@, step@) == ticked(old(self)@),
    {
        if self.is_leader() {
            self.heartbeat_elapsed = self.heartbeat_elapsed + 1;
            if self.heartbeat_elapsed >= self.config.heartbeat_ticks {
                self.heartbeat_elapsed = 0;
                let effects = self.replicate_to_all();
                assert(self@ =~= (NodeState { heartbeat_elapsed: 0, ..old(self)@ }));
                return StepResult { effects, committed: Vec::new() };
            }
            assert(self@ =~= (NodeState {
                heartbeat_elapsed: (old(self)@.heartbeat_elapsed + 1) as u64,
                ..old(self)@
            }));
            StepResult::empty()
        } else if self.election_elapsed + 1 >= self.election_timeout {
            self.start_election()
        } else {
            self.election_elapsed = self.election_elapsed + 1;
            assert(self@ =~= (NodeState {
                election_elapsed: (old(self)@.election_elapsed + 1) as u64,
                ..old(self)@
            }));
            StepResult::empty()
        }
    }

    pub fn receive(&mut self, envelope: Envelope<C>) -> (step: StepResult<C>)
        requires
            old(self).wf(),
            can_receive(old(self)@, envelope@),
        ensures
            final(self).wf(),
            (final(self)@, step@) == received(old(self)@, envelope@),
    {
        let from: NodeId = envelope.from;
        match envelope.rpc {
            Rpc::RequestVote(args) => self.handle_request_vote(from, args),
            Rpc::RequestVoteReply(reply) => self.handle_request_vote_reply(reply),
            Rpc::AppendEntries(args) => self.handle_append_entries(from, args),
            Rpc::AppendEntriesReply(reply) => self.handle_append_entries_reply(reply),
        }
    }
}

} // verus!
