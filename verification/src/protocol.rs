//! What a Raft node does, as functions of its state.
//!
//! [`NodeState`] is the view of a [`crate::node::RaftNode`]. Each function
//! below gives the state that an input leads to and what the node hands back
//! for it; the executable node is proved to do exactly this. Nothing here
//! depends on time or chance: the generator is part of the state.

use vstd::prelude::*;

use rand::rngs::StdRng;

use crate::node::{Committed, RaftConfig};
use crate::random::range_draw;
use crate::rpc::{
    Append, AppendEntriesReply, LogIndex, Message, NodeId, Payload, RequestVoteArgs,
    RequestVoteReply, Term,
};
use crate::storage::{last_term, prefix_before, suffix_from, term_at, LogCommand, LogEntry};

verus! {

/// Maximum number of entries batched into a single AppendEntries RPC. Real
/// systems tune this against message-size limits; we just cap it so a
/// far-behind follower doesn't get one enormous message.
pub const MAX_BATCH: usize = 256;

/// A node's role. A leader also keeps, for each peer, the next index to send
/// and the highest index known to match.
#[verifier::ext_equal]
pub enum Standing {
    Follower,
    Candidate,
    Leader { next_index: Map<NodeId, LogIndex>, match_index: Map<NodeId, LogIndex> },
}

/// Everything a node's behaviour depends on.
#[verifier::ext_equal]
pub struct NodeState<C> {
    pub id: NodeId,
    pub peers: Seq<NodeId>,
    pub term: Term,
    pub voted_for: Option<NodeId>,
    pub log: Seq<LogEntry<C>>,
    pub standing: Standing,
    pub commit_index: LogIndex,
    pub last_applied: LogIndex,
    pub leader_id: Option<NodeId>,
    pub votes: Set<NodeId>,
    pub election_elapsed: u64,
    pub election_timeout: u64,
    pub heartbeat_elapsed: u64,
    pub config: RaftConfig,
    pub rng: StdRng,
}

/// What a node hands back for an input: messages to send, and commands that
/// have newly been committed.
#[verifier::ext_equal]
pub struct Step<C> {
    pub effects: Seq<Message<C>>,
    pub committed: Seq<Committed<C>>,
}

pub open spec fn nothing<C>() -> Step<C> {
    Step { effects: Seq::empty(), committed: Seq::empty() }
}

pub open spec fn only<C>(message: Message<C>) -> Step<C> {
    Step { effects: seq![message], committed: Seq::empty() }
}

/// How many nodes of a cluster with this many peers make a majority.
pub open spec fn majority_with(peers: nat) -> nat {
    (peers + 1) / 2 + 1
}

// ---- starting up and timers -------------------------------------------------

/// A node that has just been set up over what its storage holds.
pub open spec fn fresh_node<C>(
    id: NodeId,
    peers: Seq<NodeId>,
    term: Term,
    voted_for: Option<NodeId>,
    log: Seq<LogEntry<C>>,
    rng: StdRng,
    config: RaftConfig,
) -> NodeState<C> {
    let (timeout, rest) = range_draw(rng, config.min_election_ticks, config.max_election_ticks);
    NodeState {
        id,
        peers,
        term,
        voted_for,
        log,
        standing: Standing::Follower,
        commit_index: 0,
        last_applied: 0,
        leader_id: None,
        votes: Set::empty(),
        election_elapsed: 0,
        election_timeout: timeout,
        heartbeat_elapsed: 0,
        config,
        rng: rest,
    }
}

/// The election clock starts over, with a freshly drawn timeout.
pub open spec fn timer_reset<C>(s: NodeState<C>) -> NodeState<C> {
    let (timeout, rest) = range_draw(
        s.rng,
        s.config.min_election_ticks,
        s.config.max_election_ticks,
    );
    NodeState { election_elapsed: 0, election_timeout: timeout, rng: rest, ..s }
}

/// The node is a follower that counts no votes.
pub open spec fn stepped_down<C>(s: NodeState<C>) -> NodeState<C> {
    NodeState { standing: Standing::Follower, votes: Set::empty(), ..s }
}

/// A higher term was seen: the node follows in it, has voted for nobody and
/// knows no leader.
pub open spec fn moved_to_term<C>(s: NodeState<C>, term: Term) -> NodeState<C> {
    NodeState { term, voted_for: None, leader_id: None, ..stepped_down(s) }
}

// ---- committing -------------------------------------------------------------

/// The commands among the entries with index above `from` and up to `to`, in
/// log order. No-ops are not surfaced.
pub open spec fn commands_between<C>(log: Seq<LogEntry<C>>, from: int, to: int) -> Seq<Committed<C>>
    decreases to - from,
{
    if to <= from {
        Seq::empty()
    } else {
        let before = commands_between(log, from, to - 1);
        if 1 <= to <= log.len() {
            match log[to - 1].command {
                LogCommand::NoOp => before,
                LogCommand::Command(command) => before.push(
                    Committed { index: log[to - 1].index, term: log[to - 1].term, command },
                ),
            }
        } else {
            before
        }
    }
}

/// Everything up to the commit index counts as applied.
pub open spec fn caught_up<C>(s: NodeState<C>) -> (NodeState<C>, Seq<Committed<C>>) {
    (
        NodeState {
            last_applied: if s.last_applied < s.commit_index {
                s.commit_index
            } else {
                s.last_applied
            },
            ..s
        },
        commands_between(s.log, s.last_applied as int, s.commit_index as int),
    )
}

/// The peers whose log is known to match the leader's up to `index`.
pub open spec fn peers_reaching(match_index: Map<NodeId, LogIndex>, index: int) -> Set<NodeId> {
    match_index.dom().filter(|peer: NodeId| match_index[peer] >= index)
}

/// How many nodes hold the leader's log up to `index`, the leader counted.
pub open spec fn nodes_reaching(
    match_index: Map<NodeId, LogIndex>,
    own_last: nat,
    index: int,
) -> nat {
    peers_reaching(match_index, index).len() + (if own_last >= index {
        1nat
    } else {
        0nat
    })
}

/// `index` is the highest index that `majority` nodes reach.
pub open spec fn is_quorum_index(
    match_index: Map<NodeId, LogIndex>,
    own_last: nat,
    majority: nat,
    index: LogIndex,
) -> bool {
    &&& nodes_reaching(match_index, own_last, index as int) >= majority
    &&& forall|higher: LogIndex|
        index < higher ==> #[trigger] nodes_reaching(match_index, own_last, higher as int)
            < majority
}

/// The highest index that `majority` nodes reach, if there are that many.
pub open spec fn quorum_index(
    match_index: Map<NodeId, LogIndex>,
    own_last: nat,
    majority: nat,
) -> Option<LogIndex> {
    if exists|index: LogIndex| is_quorum_index(match_index, own_last, majority, index) {
        Some(choose|index: LogIndex| is_quorum_index(match_index, own_last, majority, index))
    } else {
        None
    }
}

/// The index up to which a leader may commit now, if it may move at all: a
/// majority reaches it, it lies above the commit index, and the entry there
/// was written in the leader's own term.
pub open spec fn committable<C>(s: NodeState<C>) -> Option<LogIndex> {
    match s.standing {
        Standing::Leader { next_index, match_index } => match quorum_index(
            match_index,
            s.log.len(),
            majority_with(s.peers.len()),
        ) {
            Some(index) => if index > s.commit_index && term_at(s.log, index as int) == Some(
                s.term,
            ) {
                Some(index)
            } else {
                None
            },
            None => None,
        },
        _ => None,
    }
}

/// The commit rule (paper §5.4.2).
pub open spec fn commit_advanced<C>(s: NodeState<C>) -> (NodeState<C>, Seq<Committed<C>>) {
    match committable(s) {
        Some(index) => caught_up(NodeState { commit_index: index, ..s }),
        None => (s, Seq::empty()),
    }
}

// ---- replication, leader's side -----------------------------------------------

/// The AppendEntries a leader sends to a peer.
pub open spec fn append_request<C>(
    s: NodeState<C>,
    next_index: Map<NodeId, LogIndex>,
    peer: NodeId,
) -> Message<C> {
    let next: int = if next_index.contains_key(peer) {
        next_index[peer] as int
    } else {
        1
    };
    let prev: int = if next > 0 {
        next - 1
    } else {
        0
    };
    let available = suffix_from(s.log, next);
    Message {
        from: s.id,
        to: peer,
        payload: Payload::AppendEntries(
            Append {
                term: s.term,
                leader_id: s.id,
                prev_log_index: prev as u64,
                prev_log_term: match term_at(s.log, prev) {
                    Some(term) => term,
                    None => 0,
                },
                entries: if available.len() > MAX_BATCH {
                    available.take(MAX_BATCH as int)
                } else {
                    available
                },
                leader_commit: s.commit_index,
            },
        ),
    }
}

/// The AppendEntries for every peer, in the order of the peers. Only a leader
/// sends any.
pub open spec fn append_requests<C>(s: NodeState<C>) -> Seq<Message<C>> {
    match s.standing {
        Standing::Leader { next_index, match_index } => Seq::new(
            s.peers.len(),
            |i: int| append_request(s, next_index, s.peers[i]),
        ),
        _ => Seq::empty(),
    }
}

/// The log with one entry of the node's own term at its end.
pub open spec fn appended<C>(s: NodeState<C>, command: LogCommand<C>) -> NodeState<C> {
    NodeState {
        log: s.log.push(LogEntry { term: s.term, index: (s.log.len() + 1) as u64, command }),
        ..s
    }
}

/// A leader takes in a command.
pub open spec fn proposed<C>(s: NodeState<C>, command: C) -> (NodeState<C>, Step<C>) {
    let t = appended(s, LogCommand::Command(command));
    let (u, committed) = commit_advanced(t);
    (u, Step { effects: append_requests(t), committed })
}

/// One past the last entry of term `conflict_term` at or below `index`, if
/// only entries of higher terms stand between them; else `fallback`.
pub open spec fn end_of_term<C>(
    log: Seq<LogEntry<C>>,
    conflict_term: Term,
    fallback: LogIndex,
    index: int,
) -> LogIndex
    decreases index,
{
    if index <= 0 {
        fallback
    } else {
        match term_at(log, index) {
            Some(term) => if term == conflict_term {
                (index + 1) as u64
            } else if term < conflict_term {
                fallback
            } else {
                end_of_term(log, conflict_term, fallback, index - 1)
            },
            None => end_of_term(log, conflict_term, fallback, index - 1),
        }
    }
}

/// Where a leader continues after a follower reported a conflict.
pub open spec fn backtracked<C>(
    log: Seq<LogEntry<C>>,
    conflict_term: Option<Term>,
    conflict_index: LogIndex,
) -> LogIndex {
    match conflict_term {
        None => conflict_index,
        Some(term) => end_of_term(log, term, conflict_index, log.len() as int),
    }
}

pub open spec fn max_of(a: u64, b: u64) -> u64 {
    if a < b {
        b
    } else {
        a
    }
}

/// A leader's books after a follower's reply.
pub open spec fn reply_noted<C>(
    s: NodeState<C>,
    next_index: Map<NodeId, LogIndex>,
    match_index: Map<NodeId, LogIndex>,
    reply: AppendEntriesReply,
) -> Standing {
    if reply.success {
        let known: LogIndex = if match_index.contains_key(reply.follower) {
            match_index[reply.follower]
        } else {
            0
        };
        let matched = max_of(known, reply.match_index);
        Standing::Leader {
            next_index: next_index.insert(reply.follower, (matched + 1) as u64),
            match_index: match_index.insert(reply.follower, matched),
        }
    } else {
        let next = backtracked(s.log, reply.conflict_term, reply.conflict_index);
        Standing::Leader {
            next_index: next_index.insert(reply.follower, max_of(next, 1)),
            match_index,
        }
    }
}

/// The AppendEntries sent at once after a reply: after a conflict, or when
/// there is more to send.
pub open spec fn follow_up<C>(s: NodeState<C>, reply: AppendEntriesReply) -> Seq<Message<C>> {
    match s.standing {
        Standing::Leader { next_index, match_index } => if !reply.success
            || next_index[reply.follower] <= s.log.len() {
            seq![append_request(s, next_index, reply.follower)]
        } else {
            Seq::empty()
        },
        _ => Seq::empty(),
    }
}

pub open spec fn append_reply_received<C>(s: NodeState<C>, reply: AppendEntriesReply) -> (
    NodeState<C>,
    Step<C>,
) {
    if reply.term > s.term {
        (moved_to_term(s, reply.term), nothing())
    } else if reply.term < s.term {
        (s, nothing())
    } else {
        match s.standing {
            Standing::Leader { next_index, match_index } => if next_index.contains_key(
                reply.follower,
            ) {
                let t = NodeState { standing: reply_noted(s, next_index, match_index, reply), ..s };
                let (u, committed) = commit_advanced(t);
                (u, Step { effects: follow_up(t, reply), committed })
            } else {
                (s, nothing())
            },
            _ => (s, nothing()),
        }
    }
}

// ---- replication, follower's side ---------------------------------------------

pub open spec fn append_reply<C>(
    s: NodeState<C>,
    to: NodeId,
    success: bool,
    conflict_term: Option<Term>,
    conflict_index: LogIndex,
    match_index: LogIndex,
) -> Message<C> {
    Message {
        from: s.id,
        to,
        payload: Payload::AppendEntriesReply(
            AppendEntriesReply {
                term: s.term,
                success,
                follower: s.id,
                conflict_term,
                conflict_index,
                match_index,
            },
        ),
    }
}

/// The first index of the run of equal terms that ends at `index`.
pub open spec fn run_start<C>(log: Seq<LogEntry<C>>, index: int) -> int
    decreases index,
{
    if 1 < index <= log.len() && log[index - 2].term == log[index - 1].term {
        run_start(log, index - 1)
    } else {
        index
    }
}

/// The first offset, from `offset` on, at which the log does not already hold
/// an entry of the same term as the one sent; the number of entries if there
/// is none.
pub open spec fn divergence<C>(
    log: Seq<LogEntry<C>>,
    prev: int,
    entries: Seq<LogEntry<C>>,
    offset: int,
) -> int
    decreases entries.len() - offset,
{
    if 0 <= offset < entries.len() && term_at(log, prev + 1 + offset) == Some(
        entries[offset].term,
    ) {
        divergence(log, prev, entries, offset + 1)
    } else {
        offset
    }
}

/// The log after the entries that follow index `prev` were taken in (paper
/// §5.3): what already matches is kept; from the first entry that is missing
/// or has another term on, the log becomes what was sent.
pub open spec fn merged<C>(
    log: Seq<LogEntry<C>>,
    prev: int,
    entries: Seq<LogEntry<C>>,
) -> Seq<LogEntry<C>> {
    let at = divergence(log, prev, entries, 0);
    if at >= entries.len() {
        log
    } else {
        prefix_before(log, prev + 1 + at) + entries.skip(at)
    }
}

/// A node that has heard from the leader of a term that is not behind its own.
pub open spec fn following<C>(s: NodeState<C>, args: Append<C>) -> NodeState<C> {
    let heard = if args.term > s.term {
        NodeState { term: args.term, voted_for: None, ..s }
    } else {
        s
    };
    timer_reset(NodeState { leader_id: Some(args.leader_id), ..stepped_down(heard) })
}

/// A follower's log and commit index once the entries are accepted.
pub open spec fn accepted<C>(s: NodeState<C>, args: Append<C>) -> NodeState<C> {
    let last_new = args.prev_log_index + args.entries.len();
    NodeState {
        log: merged(s.log, args.prev_log_index as int, args.entries),
        commit_index: if args.leader_commit > s.commit_index {
            if args.leader_commit <= last_new {
                args.leader_commit
            } else {
                last_new as u64
            }
        } else {
            s.commit_index
        },
        ..s
    }
}

pub open spec fn append_received<C>(s: NodeState<C>, from: NodeId, args: Append<C>) -> (
    NodeState<C>,
    Step<C>,
) {
    if args.term < s.term {
        (s, only(append_reply(s, from, false, None, 0, 0)))
    } else {
        let t = following(s, args);
        match term_at(t.log, args.prev_log_index as int) {
            None => (
                t,
                only(append_reply(t, from, false, None, (t.log.len() + 1) as u64, 0)),
            ),
            Some(term) => if args.prev_log_index > 0 && term != args.prev_log_term {
                (
                    t,
                    only(
                        append_reply(
                            t,
                            from,
                            false,
                            Some(term),
                            run_start(t.log, args.prev_log_index as int) as u64,
                            0,
                        ),
                    ),
                )
            } else {
                let (u, committed) = caught_up(accepted(t, args));
                let last_new = (args.prev_log_index + args.entries.len()) as u64;
                (
                    u,
                    Step {
                        effects: seq![append_reply(u, from, true, None, 0, last_new)],
                        committed,
                    },
                )
            },
        }
    }
}

// ---- elections ----------------------------------------------------------------

/// The log that ends in `(term, index)` is at least as up to date as `log`
/// (paper §5.4.1): a later last term wins, then a longer log.
pub open spec fn up_to_date<C>(term: Term, index: LogIndex, log: Seq<LogEntry<C>>) -> bool {
    term > last_term(log) || (term == last_term(log) && index >= log.len())
}

pub open spec fn vote_reply<C>(s: NodeState<C>, to: NodeId, granted: bool) -> Message<C> {
    Message {
        from: s.id,
        to,
        payload: Payload::RequestVoteReply(
            RequestVoteReply { term: s.term, vote_granted: granted, voter: s.id },
        ),
    }
}

/// A node grants its vote if it has none to keep in this term and the
/// candidate's log is at least as up to date as its own.
pub open spec fn grants<C>(s: NodeState<C>, args: RequestVoteArgs) -> bool {
    &&& s.voted_for is None || s.voted_for == Some(args.candidate_id)
    &&& up_to_date(args.last_log_term, args.last_log_index, s.log)
}

pub open spec fn vote_requested<C>(s: NodeState<C>, from: NodeId, args: RequestVoteArgs) -> (
    NodeState<C>,
    Step<C>,
) {
    if args.term < s.term {
        (s, only(vote_reply(s, from, false)))
    } else {
        let t = if args.term > s.term {
            moved_to_term(s, args.term)
        } else {
            s
        };
        if grants(t, args) {
            let u = timer_reset(NodeState { voted_for: Some(args.candidate_id), ..t });
            (u, only(vote_reply(u, from, true)))
        } else {
            (t, only(vote_reply(t, from, false)))
        }
    }
}

/// A leader's books at the start of its term: send from the end of its own
/// log, nothing known to match.
pub open spec fn in_office<C>(s: NodeState<C>) -> NodeState<C> {
    NodeState {
        standing: Standing::Leader {
            next_index: Map::new(
                |peer: NodeId| s.peers.contains(peer),
                |peer: NodeId| (s.log.len() + 1) as u64,
            ),
            match_index: Map::new(|peer: NodeId| s.peers.contains(peer), |peer: NodeId| 0u64),
        },
        leader_id: Some(s.id),
        heartbeat_elapsed: 0,
        ..s
    }
}

/// Paper §8: a new leader appends a no-op so that it can eventually commit
/// entries of earlier terms.
pub open spec fn elected<C>(s: NodeState<C>) -> (NodeState<C>, Step<C>) {
    let t = appended(in_office(s), LogCommand::NoOp);
    let (u, committed) = commit_advanced(t);
    (u, Step { effects: append_requests(t), committed })
}

pub open spec fn vote_reply_received<C>(s: NodeState<C>, reply: RequestVoteReply) -> (
    NodeState<C>,
    Step<C>,
) {
    if reply.term > s.term {
        (moved_to_term(s, reply.term), nothing())
    } else if !(s.standing is Candidate) || reply.term != s.term || !reply.vote_granted {
        (s, nothing())
    } else {
        let t = NodeState { votes: s.votes.insert(reply.voter), ..s };
        if t.votes.len() >= majority_with(s.peers.len()) {
            elected(t)
        } else {
            (t, nothing())
        }
    }
}

/// The node stands for election in the next term, with its own vote.
pub open spec fn candidacy<C>(s: NodeState<C>) -> NodeState<C> {
    timer_reset(
        NodeState {
            term: (s.term + 1) as u64,
            voted_for: Some(s.id),
            standing: Standing::Candidate,
            votes: Set::empty().insert(s.id),
            leader_id: None,
            ..s
        },
    )
}

pub open spec fn vote_request<C>(s: NodeState<C>, to: NodeId) -> Message<C> {
    Message {
        from: s.id,
        to,
        payload: Payload::RequestVote(
            RequestVoteArgs {
                term: s.term,
                candidate_id: s.id,
                last_log_index: s.log.len() as u64,
                last_log_term: last_term(s.log),
            },
        ),
    }
}

pub open spec fn vote_requests<C>(s: NodeState<C>) -> Seq<Message<C>> {
    Seq::new(s.peers.len(), |i: int| vote_request(s, s.peers[i]))
}

pub open spec fn election_started<C>(s: NodeState<C>) -> (NodeState<C>, Step<C>) {
    let t = candidacy(s);
    if s.peers.len() == 0 {
        elected(t)
    } else {
        (t, Step { effects: vote_requests(t), committed: Seq::empty() })
    }
}

// ---- inputs -------------------------------------------------------------------

/// One logical unit of time has passed.
pub open spec fn ticked<C>(s: NodeState<C>) -> (NodeState<C>, Step<C>) {
    if s.standing is Leader {
        if s.heartbeat_elapsed + 1 >= s.config.heartbeat_ticks {
            let t = NodeState { heartbeat_elapsed: 0, ..s };
            (t, Step { effects: append_requests(t), committed: Seq::empty() })
        } else {
            (NodeState { heartbeat_elapsed: (s.heartbeat_elapsed + 1) as u64, ..s }, nothing())
        }
    } else if s.election_elapsed + 1 >= s.election_timeout {
        election_started(s)
    } else {
        (NodeState { election_elapsed: (s.election_elapsed + 1) as u64, ..s }, nothing())
    }
}

/// A message has arrived.
pub open spec fn received<C>(s: NodeState<C>, message: Message<C>) -> (NodeState<C>, Step<C>) {
    match message.payload {
        Payload::RequestVote(args) => vote_requested(s, message.from, args),
        Payload::RequestVoteReply(reply) => vote_reply_received(s, reply),
        Payload::AppendEntries(args) => append_received(s, message.from, args),
        Payload::AppendEntriesReply(reply) => append_reply_received(s, reply),
    }
}

// ---- machine limits -----------------------------------------------------------

/// What every node keeps: the cluster can be counted, the election timeout
/// lies in its range, both clocks stay below what they count to, and every
/// index a leader knows to match has a successor.
pub open spec fn sound_node<C>(s: NodeState<C>) -> bool {
    &&& s.peers.len() < usize::MAX
    &&& s.config.min_election_ticks <= s.election_timeout <= s.config.max_election_ticks
    &&& s.election_elapsed == 0 || s.election_elapsed < s.election_timeout
    &&& s.heartbeat_elapsed == 0 || s.heartbeat_elapsed < s.config.heartbeat_ticks
    &&& s.standing matches Standing::Leader { next_index, match_index } ==> forall|peer: NodeId|
        match_index.contains_key(peer) ==> #[trigger] match_index[peer] < u64::MAX
}

/// The next tick starts an election.
pub open spec fn times_out<C>(s: NodeState<C>) -> bool {
    !(s.standing is Leader) && s.election_elapsed + 1 >= s.election_timeout
}

/// The next term exists and, where the node wins it alone, the index of its
/// first entry too.
pub open spec fn can_stand<C>(s: NodeState<C>) -> bool {
    &&& s.term < u64::MAX
    &&& s.peers.len() == 0 ==> s.log.len() < u64::MAX
}

/// The term and the index that the next tick counts to, if any, exist.
pub open spec fn can_tick<C>(s: NodeState<C>) -> bool {
    times_out(s) ==> can_stand(s)
}

/// The reply is a vote that makes the candidate a leader.
pub open spec fn wins_with<C>(s: NodeState<C>, reply: RequestVoteReply) -> bool {
    &&& s.standing is Candidate
    &&& reply.term == s.term
    &&& reply.vote_granted
    &&& s.votes.insert(reply.voter).len() >= majority_with(s.peers.len())
}

/// The entries come from a leader that is not behind and follow on an entry
/// that the node has.
pub open spec fn fits<C>(s: NodeState<C>, args: Append<C>) -> bool {
    &&& args.term >= s.term
    &&& args.prev_log_index == 0 || term_at(s.log, args.prev_log_index as int) == Some(
        args.prev_log_term,
    )
}

/// The reply speaks of the node's own reign and comes from a peer it sends to.
pub open spec fn counts<C>(s: NodeState<C>, reply: AppendEntriesReply) -> bool {
    &&& s.standing matches Standing::Leader { next_index, match_index }
    &&& reply.term == s.term
    &&& next_index.contains_key(reply.follower)
}

/// Every index that handling the message counts to exists.
pub open spec fn can_receive<C>(s: NodeState<C>, message: Message<C>) -> bool {
    match message.payload {
        Payload::RequestVote(args) => true,
        Payload::RequestVoteReply(reply) => wins_with(s, reply) ==> s.log.len() < u64::MAX,
        Payload::AppendEntries(args) => fits(s, args) ==> args.prev_log_index + args.entries.len()
            <= u64::MAX,
        Payload::AppendEntriesReply(reply) => counts(s, reply) ==> if reply.success {
            reply.match_index < u64::MAX
        } else {
            reply.conflict_term == Some(last_term(s.log)) ==> s.log.len() < u64::MAX
        },
    }
}

} // verus!
