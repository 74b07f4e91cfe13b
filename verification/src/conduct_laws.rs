//! What a node does with each input, told by what goes in and what comes out.
//!
//! The laws below speak of logs entry by entry, of messages field by field and
//! of majorities by counting nodes. Together they say of every input, in every
//! state, what is sent and to whom, what is committed and handed out, and what
//! becomes of the node.

use vstd::prelude::*;

use crate::node::{role_kind, Committed, RaftConfig, RoleKind, StepResult};
use crate::node_laws::lemma_divergence;
use crate::protocol::{
    append_request, append_requests, appended, candidacy, commands_between, commit_advanced,
    committable, divergence, elected, election_started, end_of_term, fresh_node, in_office,
    is_quorum_index, merged, nodes_reaching, nothing, only, peers_reaching, proposed, quorum_index,
    received, reply_noted, run_start, ticked, NodeState, Standing, Step,
};
use crate::quorum::lemma_quorum_index_is;
use crate::random::range_draw;
use crate::rpc::{
    Append, AppendEntriesReply, LogIndex, Message, NodeId, Payload, RequestVoteArgs,
    RequestVoteReply, Term,
};
use crate::storage::{prefix_before, term_at, LogCommand, LogEntry};

verus! {

// ---- words ------------------------------------------------------------------------

/// The message is the AppendEntries of leader `id` in `term` that brings
/// `peer` the log from index `next` on: it names the entry before, and holds
/// the entries from there, at most 256 of them.
pub open spec fn brings<C>(
    m: Message<C>,
    id: NodeId,
    term: Term,
    log: Seq<LogEntry<C>>,
    commit: LogIndex,
    peer: NodeId,
    next: int,
) -> bool {
    let prev: int = if next < 1 {
        0
    } else {
        next - 1
    };
    let left: int = if next < 1 || next > log.len() {
        0
    } else {
        log.len() - next + 1
    };
    &&& m.from == id
    &&& m.to == peer
    &&& m.payload matches Payload::AppendEntries(args)
    &&& args.term == term
    &&& args.leader_id == id
    &&& args.leader_commit == commit
    &&& args.prev_log_index == prev
    &&& args.prev_log_term == (if 1 <= prev <= log.len() {
        log[prev - 1].term
    } else {
        0
    })
    &&& args.entries.len() == (if left > 256 {
        256
    } else {
        left
    })
    &&& forall|k: int|
        #![trigger args.entries[k]]
        0 <= k < args.entries.len() ==> args.entries[k] == log[next - 1 + k]
}

/// One message for each peer, in the order of the peers, and each brings that
/// peer the log from its next index on.
pub open spec fn brings_all<C>(
    effects: Seq<Message<C>>,
    s: NodeState<C>,
    log: Seq<LogEntry<C>>,
    next_index: Map<NodeId, LogIndex>,
) -> bool {
    &&& effects.len() == s.peers.len()
    &&& forall|i: int|
        #![trigger effects[i]]
        0 <= i < s.peers.len() ==> brings(
            effects[i],
            s.id,
            s.term,
            log,
            s.commit_index,
            s.peers[i],
            if next_index.contains_key(s.peers[i]) {
                next_index[s.peers[i]] as int
            } else {
                1
            },
        )
}

/// What is handed out is the commands at these places of the log: all those
/// with an index above `from` and up to `to`, each once, in order, and nothing
/// else.
pub open spec fn hands_out_from<C>(
    log: Seq<LogEntry<C>>,
    from: int,
    to: int,
    out: Seq<Committed<C>>,
    places: Seq<int>,
) -> bool {
    &&& places.len() == out.len()
    &&& forall|i: int, j: int|
        #![trigger places[i], places[j]]
        0 <= i < j < places.len() ==> places[i] < places[j]
    &&& forall|i: int|
        #![trigger places[i]]
        #![trigger out[i]]
        0 <= i < places.len() ==> {
            let k = places[i];
            &&& from < k <= to
            &&& 1 <= k <= log.len()
            &&& log[k - 1].command == LogCommand::Command(out[i].command)
            &&& log[k - 1].term == out[i].term
            &&& log[k - 1].index == out[i].index
        }
    &&& forall|k: int|
        #![trigger log[k - 1]]
        from < k <= to && 1 <= k <= log.len() && log[k - 1].command is Command ==> places.contains(
            k,
        )
}

/// The commands with an index above `from` and up to `to` are handed out.
pub open spec fn hands_out<C>(
    log: Seq<LogEntry<C>>,
    from: int,
    to: int,
    out: Seq<Committed<C>>,
) -> bool {
    exists|places: Seq<int>| hands_out_from(log, from, to, out, places)
}

/// Of all nodes, the leader counted, a majority is known to hold the leader's
/// log up to `k`.
pub open spec fn held_by_majority<C>(s: NodeState<C>, k: int) -> bool {
    &&& s.standing matches Standing::Leader { next_index, match_index }
    &&& match_index.dom().filter(|peer: NodeId| match_index[peer] >= k).len() + (if s.log.len()
        >= k {
        1int
    } else {
        0int
    }) >= (s.peers.len() + 1) / 2 + 1
}

/// `k` is the highest index that a majority holds, it is new, and its entry is
/// of the leader's own term.
pub open spec fn may_commit<C>(s: NodeState<C>, k: LogIndex) -> bool {
    &&& s.commit_index < k <= s.log.len()
    &&& s.log[k - 1].term == s.term
    &&& held_by_majority(s, k as int)
    &&& forall|higher: LogIndex| k < higher ==> !#[trigger] held_by_majority(s, higher as int)
}

/// From `t` to `u` a leader commits what it may, and hands out what that adds.
pub open spec fn commits<C>(t: NodeState<C>, u: NodeState<C>, out: Seq<Committed<C>>) -> bool {
    &&& u == NodeState { commit_index: u.commit_index, last_applied: u.last_applied, ..t }
    &&& forall|k: LogIndex| #[trigger] may_commit(t, k) ==> u.commit_index == k
    &&& u.commit_index != t.commit_index ==> {
        &&& may_commit(t, u.commit_index)
        &&& u.last_applied == (if t.last_applied < u.commit_index {
            u.commit_index
        } else {
            t.last_applied
        })
        &&& hands_out(t.log, t.last_applied as int, u.commit_index as int, out)
    }
    &&& u.commit_index == t.commit_index ==> u.last_applied == t.last_applied && out.len() == 0
}

// ---- their proofs -----------------------------------------------------------------

proof fn lemma_request<C>(s: NodeState<C>, next_index: Map<NodeId, LogIndex>, peer: NodeId)
    ensures
        brings(
            append_request(s, next_index, peer),
            s.id,
            s.term,
            s.log,
            s.commit_index,
            peer,
            if next_index.contains_key(peer) {
                next_index[peer] as int
            } else {
                1
            },
        ),
{
}

proof fn lemma_requests<C>(s: NodeState<C>)
    requires
        s.standing is Leader,
    ensures
        brings_all(append_requests(s), s, s.log, s.standing->Leader_next_index),
{
    let next_index = s.standing->Leader_next_index;
    assert forall|i: int| 0 <= i < s.peers.len() implies brings(
        #[trigger] append_requests(s)[i],
        s.id,
        s.term,
        s.log,
        s.commit_index,
        s.peers[i],
        if next_index.contains_key(s.peers[i]) {
            next_index[s.peers[i]] as int
        } else {
            1
        },
    ) by {
        lemma_request(s, next_index, s.peers[i]);
    }
}

/// Every command in the range is handed out, exactly once and in log order,
/// and nothing else is: the result gives the index that each comes from.
pub proof fn law_every_command_is_handed_out<C>(
    log: Seq<LogEntry<C>>,
    from: int,
    to: int,
) -> (places: Seq<int>)
    ensures
        hands_out_from(log, from, to, commands_between(log, from, to), places),
    decreases to - from,
{
    if to <= from {
        Seq::empty()
    } else {
        let before = law_every_command_is_handed_out(log, from, to - 1);
        let out = commands_between(log, from, to);
        if 1 <= to <= log.len() && log[to - 1].command is Command {
            let places = before.push(to);
            assert forall|k: int|
                #![trigger log[k - 1]]
                from < k <= to && 1 <= k <= log.len()
                    && log[k - 1].command is Command implies places.contains(k) by {
                if k < to {
                    assert(before.contains(k));
                    let i = choose|i: int| 0 <= i < before.len() && before[i] == k;
                    assert(places[i] == k);
                } else {
                    assert(places[before.len() as int] == k);
                }
            }
            assert forall|i: int|
                #![trigger places[i]]
                #![trigger out[i]]
                0 <= i < places.len() implies {
                let k = places[i];
                &&& from < k <= to
                &&& 1 <= k <= log.len()
                &&& log[k - 1].command == LogCommand::Command(out[i].command)
                &&& log[k - 1].term == out[i].term
                &&& log[k - 1].index == out[i].index
            } by {
                if i < before.len() {
                    assert(places[i] == before[i]);
                    assert(out[i] == commands_between(log, from, to - 1)[i]);
                }
            }
            places
        } else {
            before
        }
    }
}

proof fn lemma_held<C>(s: NodeState<C>, k: int)
    requires
        s.standing is Leader,
    ensures
        held_by_majority(s, k) <==> nodes_reaching(
            s.standing->Leader_match_index,
            s.log.len(),
            k,
        ) >= (s.peers.len() + 1) / 2 + 1,
{
    let match_index = s.standing->Leader_match_index;
    assert(match_index.dom().filter(|peer: NodeId| match_index[peer] >= k) =~= peers_reaching(
        match_index,
        k,
    ));
}

/// The commit rule: a leader's commit index moves exactly to the highest index
/// that a majority holds, and only where the entry there is of the leader's
/// own term; what that adds is handed out.
pub proof fn law_commit_rule<C>(t: NodeState<C>)
    requires
        t.standing is Leader,
    ensures
        commits(t, commit_advanced(t).0, commit_advanced(t).1),
{
    let (u, out) = commit_advanced(t);
    let match_index = t.standing->Leader_match_index;
    let majority = ((t.peers.len() + 1) / 2 + 1) as nat;
    assert forall|k: LogIndex| #[trigger] may_commit(t, k) implies u.commit_index == k by {
        lemma_held(t, k as int);
        assert forall|higher: LogIndex| k < higher implies #[trigger] nodes_reaching(
            match_index,
            t.log.len(),
            higher as int,
        ) < majority by {
            lemma_held(t, higher as int);
            assert(!held_by_majority(t, higher as int));
        }
        lemma_quorum_index_is(match_index, t.log.len(), majority, k);
    }
    if let Some(index) = committable(t) {
        assert(quorum_index(match_index, t.log.len(), majority) == Some(index));
        assert(is_quorum_index(match_index, t.log.len(), majority, index));
        lemma_held(t, index as int);
        assert forall|higher: LogIndex| index < higher implies !#[trigger] held_by_majority(
            t,
            higher as int,
        ) by {
            lemma_held(t, higher as int);
            assert(nodes_reaching(match_index, t.log.len(), higher as int) < majority);
        }
        let places = law_every_command_is_handed_out(
            t.log,
            t.last_applied as int,
            index as int,
        );
        assert(hands_out(t.log, t.last_applied as int, index as int, out));
    }
}

// ---- taking office and proposing --------------------------------------------------

/// A leader's log after it wrote an entry: one longer, the entry carries its
/// term and its place.
pub open spec fn writes<C>(
    s: NodeState<C>,
    log: Seq<LogEntry<C>>,
    command: LogCommand<C>,
) -> bool {
    &&& log.len() == s.log.len() + 1
    &&& forall|k: int| #![trigger log[k]] 0 <= k < s.log.len() ==> log[k] == s.log[k]
    &&& log[s.log.len() as int].term == s.term
    &&& log[s.log.len() as int].index == s.log.len() + 1
    &&& log[s.log.len() as int].command == command
}

/// A leader that takes in a command appends it to its log, sends each peer the
/// log from that peer's next index on, and commits what it may. Nothing else
/// of it changes.
pub proof fn law_propose<C>(s: NodeState<C>, command: C)
    requires
        s.standing is Leader,
        s.log.len() < u64::MAX,
    ensures
        ({
            let (u, step) = proposed(s, command);
            &&& writes(s, u.log, LogCommand::Command(command))
            &&& brings_all(step.effects, s, u.log, s.standing->Leader_next_index)
            &&& commits(NodeState { log: u.log, ..s }, u, step.committed)
        }),
{
    let t = appended(s, LogCommand::Command(command));
    lemma_requests(t);
    law_commit_rule(t);
    assert(t == NodeState { log: t.log, ..s });
}

/// From `s` to `u` a node takes office: it keeps books on its peers, to send
/// from the end of its old log and with nothing known to match; it writes a
/// no-op of its term, sends it to each peer once, and commits what it may.
pub open spec fn takes_office<C>(s: NodeState<C>, u: NodeState<C>, step: Step<C>) -> bool {
    &&& writes(s, u.log, LogCommand::NoOp)
    &&& u.standing matches Standing::Leader { next_index, match_index }
    &&& forall|peer: NodeId| #[trigger] next_index.contains_key(peer) <==> s.peers.contains(peer)
    &&& forall|peer: NodeId| #[trigger] match_index.contains_key(peer) <==> s.peers.contains(peer)
    &&& forall|peer: NodeId|
        #![trigger next_index[peer]]
        s.peers.contains(peer) ==> next_index[peer] == s.log.len() + 1
    &&& forall|peer: NodeId|
        #![trigger match_index[peer]]
        s.peers.contains(peer) ==> match_index[peer] == 0
    &&& step.effects.len() == s.peers.len()
    &&& forall|i: int|
        #![trigger step.effects[i]]
        0 <= i < s.peers.len() ==> brings(
            step.effects[i],
            s.id,
            s.term,
            u.log,
            s.commit_index,
            s.peers[i],
            s.log.len() as int + 1,
        )
    &&& commits(
        NodeState {
            log: u.log,
            standing: u.standing,
            leader_id: Some(s.id),
            heartbeat_elapsed: 0,
            ..s
        },
        u,
        step.committed,
    )
}

proof fn lemma_takes_office<C>(s: NodeState<C>)
    requires
        s.log.len() < u64::MAX,
    ensures
        takes_office(s, elected(s).0, elected(s).1),
{
    let t = appended(in_office(s), LogCommand::NoOp);
    let (u, step) = elected(s);
    lemma_requests(t);
    law_commit_rule(t);
    let next_index = t.standing->Leader_next_index;
    assert forall|i: int| #![trigger step.effects[i]] 0 <= i < s.peers.len() implies brings(
        step.effects[i],
        s.id,
        s.term,
        u.log,
        s.commit_index,
        s.peers[i],
        s.log.len() as int + 1,
    ) by {
        assert(s.peers.contains(s.peers[i]));
        assert(next_index.contains_key(s.peers[i]));
    }
    assert(t == NodeState {
        log: u.log,
        standing: u.standing,
        leader_id: Some(s.id),
        heartbeat_elapsed: 0,
        ..s
    });
}

/// The books with which a leader starts, and the entry that it may write.
pub proof fn law_office<C>(s: NodeState<C>, command: LogCommand<C>)
    requires
        s.log.len() < u64::MAX,
    ensures
        in_office(s).standing matches Standing::Leader { next_index, match_index } && (forall|
            peer: NodeId,
        | #[trigger]
            next_index.contains_key(peer) <==> s.peers.contains(peer)) && (forall|peer: NodeId|
         #[trigger]
            match_index.contains_key(peer) <==> s.peers.contains(peer)) && (forall|peer: NodeId|
            #![trigger next_index[peer]]
            #![trigger match_index[peer]]
            s.peers.contains(peer) ==> next_index[peer] == s.log.len() + 1 && match_index[peer]
                == 0),
        in_office(s) == (NodeState {
            standing: in_office(s).standing,
            leader_id: Some(s.id),
            heartbeat_elapsed: 0,
            ..s
        }),
        writes(s, appended(s, command).log, command),
        appended(s, command) == (NodeState { log: appended(s, command).log, ..s }),
{
}

// ---- standing for election --------------------------------------------------------

/// A node that stands for election moves to the next term, votes for itself,
/// knows no leader and restarts its clock with a timeout newly drawn. With
/// peers it is a candidate and asks each of them, in order, for its vote,
/// saying how far its log goes; alone it takes office at once.
pub proof fn law_election<C>(s: NodeState<C>)
    requires
        s.term < u64::MAX,
        s.peers.len() == 0 ==> s.log.len() < u64::MAX,
        s.log.len() <= u64::MAX,
    ensures
        ({
            let (u, step) = election_started(s);
            let drawn = range_draw(
                s.rng,
                s.config.min_election_ticks,
                s.config.max_election_ticks,
            );
            let t = NodeState {
                term: (s.term + 1) as u64,
                voted_for: Some(s.id),
                standing: Standing::Candidate,
                votes: set![s.id],
                leader_id: None,
                election_elapsed: 0,
                election_timeout: drawn.0,
                rng: drawn.1,
                ..s
            };
            &&& s.peers.len() > 0 ==> {
                &&& u == t
                &&& step.committed.len() == 0
                &&& step.effects.len() == s.peers.len()
                &&& forall|i: int|
                    #![trigger step.effects[i]]
                    0 <= i < s.peers.len() ==> {
                        &&& step.effects[i].from == s.id
                        &&& step.effects[i].to == s.peers[i]
                        &&& step.effects[i].payload matches Payload::RequestVote(args)
                        &&& args.term == s.term + 1
                        &&& args.candidate_id == s.id
                        &&& args.last_log_index == s.log.len()
                        &&& args.last_log_term == (if s.log.len() == 0 {
                            0
                        } else {
                            s.log[s.log.len() - 1].term
                        })
                    }
            }
            &&& s.peers.len() == 0 ==> takes_office(t, u, step)
        }),
{
    if s.peers.len() == 0 {
        lemma_takes_office(candidacy(s));
    }
}

/// What time does to a node. A leader counts to the heartbeat and then sends
/// each peer what it lacks; any other node counts to its timeout and then
/// stands for election. Below that, only the clock moves.
pub proof fn law_tick<C>(s: NodeState<C>)
    requires
        !(s.standing is Leader) && s.election_elapsed + 1 >= s.election_timeout ==> s.term
            < u64::MAX,
        s.heartbeat_elapsed < u64::MAX,
        s.election_elapsed < u64::MAX,
    ensures
        ({
            let (u, step) = ticked(s);
            &&& s.standing is Leader ==> {
                &&& step.committed.len() == 0
                &&& s.heartbeat_elapsed + 1 >= s.config.heartbeat_ticks ==> {
                    &&& u == NodeState { heartbeat_elapsed: 0, ..s }
                    &&& brings_all(step.effects, s, s.log, s.standing->Leader_next_index)
                }
                &&& s.heartbeat_elapsed + 1 < s.config.heartbeat_ticks ==> {
                    &&& u == NodeState {
                        heartbeat_elapsed: (s.heartbeat_elapsed + 1) as u64,
                        ..s
                    }
                    &&& step.effects.len() == 0
                }
            }
            &&& !(s.standing is Leader) ==> {
                &&& s.election_elapsed + 1 >= s.election_timeout ==> (u, step)
                    == election_started(s)
                &&& s.election_elapsed + 1 < s.election_timeout ==> {
                    &&& u == NodeState { election_elapsed: (s.election_elapsed + 1) as u64, ..s }
                    &&& step.effects.len() == 0
                    &&& step.committed.len() == 0
                }
            }
        }),
{
    if s.standing is Leader {
        lemma_requests(NodeState { heartbeat_elapsed: 0, ..s });
    }
}

// ---- votes ------------------------------------------------------------------------

/// A vote is granted exactly when the request's term is not behind, the node
/// has given no other candidate its vote in that term, and the candidate's log
/// ends in a later term than its own, or in the same and is as long. The
/// answer goes to the sender and gives the node's term. This is so in every
/// role: a higher term makes any node a follower with a vote to give.
pub proof fn law_vote<C>(s: NodeState<C>, from: NodeId, to: NodeId, args: RequestVoteArgs)
    ensures
        ({
            let (u, step) = received(
                s,
                Message { from, to, payload: Payload::RequestVote(args) },
            );
            let own = if s.log.len() == 0 {
                0
            } else {
                s.log[s.log.len() - 1].term
            };
            let granted = {
                &&& args.term >= s.term
                &&& args.term > s.term || s.voted_for is None || s.voted_for == Some(
                    args.candidate_id,
                )
                &&& args.last_log_term > own || (args.last_log_term == own && args.last_log_index
                    >= s.log.len())
            };
            let drawn = range_draw(
                s.rng,
                s.config.min_election_ticks,
                s.config.max_election_ticks,
            );
            &&& step.committed.len() == 0
            &&& step.effects.len() == 1
            &&& step.effects[0].from == s.id
            &&& step.effects[0].to == from
            &&& step.effects[0].payload matches Payload::RequestVoteReply(reply)
            &&& reply.vote_granted == granted
            &&& reply.voter == s.id
            &&& reply.term == u.term
            &&& args.term <= s.term ==> {
                &&& u.term == s.term
                &&& u.standing == s.standing
                &&& u.votes == s.votes
                &&& u.leader_id == s.leader_id
            }
            &&& args.term > s.term ==> {
                &&& u.term == args.term
                &&& u.standing is Follower
                &&& u.votes == Set::<NodeId>::empty()
                &&& u.leader_id is None
            }
            &&& granted ==> {
                &&& u.voted_for == Some(args.candidate_id)
                &&& u.election_elapsed == 0
                &&& u.election_timeout == drawn.0
                &&& u.rng == drawn.1
            }
            &&& !granted ==> {
                &&& u.voted_for == (if args.term > s.term {
                    None
                } else {
                    s.voted_for
                })
                &&& u.election_elapsed == s.election_elapsed
                &&& u.election_timeout == s.election_timeout
                &&& u.rng == s.rng
            }
            &&& u.id == s.id
            &&& u.peers == s.peers
            &&& u.log == s.log
            &&& u.commit_index == s.commit_index
            &&& u.last_applied == s.last_applied
            &&& u.heartbeat_elapsed == s.heartbeat_elapsed
            &&& u.config == s.config
        }),
{
}

/// A node that learns of a higher term from a reply follows in it, with no
/// vote given and no leader known, and does nothing else.
pub open spec fn gives_way<C>(
    s: NodeState<C>,
    u: NodeState<C>,
    step: Step<C>,
    term: Term,
) -> bool {
    &&& step.effects.len() == 0
    &&& step.committed.len() == 0
    &&& u == NodeState {
        term,
        voted_for: None,
        standing: Standing::Follower,
        votes: Set::empty(),
        leader_id: None,
        ..s
    }
}

/// A granted vote of its own term counts for a candidate, once per voter; with
/// a majority it takes office. Any other reply that is not of a higher term
/// changes nothing.
pub proof fn law_vote_reply<C>(
    s: NodeState<C>,
    from: NodeId,
    to: NodeId,
    reply: RequestVoteReply,
)
    requires
        s.standing is Candidate && reply.term == s.term && reply.vote_granted && s.votes.insert(
            reply.voter,
        ).len() >= (s.peers.len() + 1) / 2 + 1 ==> s.log.len() < u64::MAX,
    ensures
        ({
            let (u, step) = received(
                s,
                Message { from, to, payload: Payload::RequestVoteReply(reply) },
            );
            let counts = s.standing is Candidate && reply.term == s.term && reply.vote_granted;
            let t = NodeState { votes: s.votes.insert(reply.voter), ..s };
            &&& reply.term > s.term ==> gives_way(s, u, step, reply.term)
            &&& reply.term <= s.term && !counts ==> {
                &&& u == s
                &&& step.effects.len() == 0
                &&& step.committed.len() == 0
            }
            &&& counts && t.votes.len() < (s.peers.len() + 1) / 2 + 1 ==> {
                &&& u == t
                &&& step.effects.len() == 0
                &&& step.committed.len() == 0
            }
            &&& counts && t.votes.len() >= (s.peers.len() + 1) / 2 + 1 ==> takes_office(t, u, step)
        }),
{
    if s.log.len() < u64::MAX {
        lemma_takes_office(NodeState { votes: s.votes.insert(reply.voter), ..s });
    }
}

// ---- following --------------------------------------------------------------------

/// The log holds entries of the terms of the first `n` sent, right behind
/// `prev`.
pub open spec fn matches_first<C>(
    log: Seq<LogEntry<C>>,
    prev: int,
    entries: Seq<LogEntry<C>>,
    n: int,
) -> bool {
    &&& prev + n <= log.len()
    &&& forall|j: int|
        #![trigger entries[j]]
        0 <= j < n ==> log[prev + j].term == entries[j].term
}

/// `new` is the log after entries were taken in behind `prev`: where it held
/// them all it is as it was, with whatever follows; else it ends with them,
/// and from the first that it lacked or had of another term on it is what was
/// sent.
pub open spec fn takes_in_entries<C>(
    log: Seq<LogEntry<C>>,
    new: Seq<LogEntry<C>>,
    prev: int,
    entries: Seq<LogEntry<C>>,
) -> bool {
    &&& matches_first(log, prev, entries, entries.len() as int) ==> new == log
    &&& !matches_first(log, prev, entries, entries.len() as int) ==> {
        &&& new.len() == prev + entries.len()
        &&& forall|j: int| #![trigger new[j]] 0 <= j < prev ==> new[j] == log[j]
        &&& forall|j: int|
            0 <= j < entries.len() ==> #[trigger] kept_or_sent(log, new, prev, entries, j)
    }
}

/// In `new`, the entry at the place of the one sent as number `j` is the old
/// one if all up to there matched, and else the one sent.
pub open spec fn kept_or_sent<C>(
    log: Seq<LogEntry<C>>,
    new: Seq<LogEntry<C>>,
    prev: int,
    entries: Seq<LogEntry<C>>,
    j: int,
) -> bool {
    new[prev + j] == (if matches_first(log, prev, entries, j + 1) {
        log[prev + j]
    } else {
        entries[j]
    })
}

proof fn lemma_matches_up_to_divergence<C>(
    log: Seq<LogEntry<C>>,
    prev: int,
    entries: Seq<LogEntry<C>>,
    n: int,
)
    requires
        0 <= prev <= log.len(),
        0 <= n <= entries.len(),
    ensures
        matches_first(log, prev, entries, n) <==> n <= divergence(log, prev, entries, 0),
{
    let d = divergence(log, prev, entries, 0);
    lemma_divergence(log, prev, entries, 0);
    if n <= d {
        if n > 0 {
            assert(term_at(log, prev + 1 + (n - 1)) == Some(entries[n - 1].term));
        }
        assert forall|j: int| #![trigger entries[j]] 0 <= j < n implies log[prev + j].term
            == entries[j].term by {
            assert(term_at(log, prev + 1 + j) == Some(entries[j].term));
        }
    } else if matches_first(log, prev, entries, n) {
        assert(log[prev + d].term == entries[d].term);
    }
}

proof fn lemma_takes_in_entries<C>(
    log: Seq<LogEntry<C>>,
    prev: int,
    entries: Seq<LogEntry<C>>,
)
    requires
        0 <= prev <= log.len(),
    ensures
        takes_in_entries(log, merged(log, prev, entries), prev, entries),
{
    let new = merged(log, prev, entries);
    let d = divergence(log, prev, entries, 0);
    lemma_divergence(log, prev, entries, 0);
    lemma_matches_up_to_divergence(log, prev, entries, entries.len() as int);
    if d < entries.len() {
        lemma_matches_up_to_divergence(log, prev, entries, d);
        assert(prev + d <= log.len());
        let kept = prefix_before(log, prev + 1 + d);
        assert(kept =~= log.take(prev + d));
        assert(new == kept + entries.skip(d));
        assert forall|j: int| 0 <= j < entries.len() implies #[trigger] kept_or_sent(
            log,
            new,
            prev,
            entries,
            j,
        ) by {
            lemma_kept_or_sent(log, prev, entries, j);
        }
    }
}

proof fn lemma_kept_or_sent<C>(
    log: Seq<LogEntry<C>>,
    prev: int,
    entries: Seq<LogEntry<C>>,
    j: int,
)
    requires
        0 <= prev <= log.len(),
        0 <= j < entries.len(),
        divergence(log, prev, entries, 0) < entries.len(),
    ensures
        kept_or_sent(log, merged(log, prev, entries), prev, entries, j),
{
    let d = divergence(log, prev, entries, 0);
    lemma_divergence(log, prev, entries, 0);
    lemma_matches_up_to_divergence(log, prev, entries, d);
    lemma_matches_up_to_divergence(log, prev, entries, j + 1);
    assert(prefix_before(log, prev + 1 + d) =~= log.take(prev + d));
    if j >= d {
        assert(entries.skip(d)[j - d] == entries[j]);
    }
}

/// The single answer to an AppendEntries.
pub open spec fn answers<C>(
    step: Step<C>,
    s: NodeState<C>,
    to: NodeId,
    term: Term,
    success: bool,
    conflict_term: Option<Term>,
    conflict_index: int,
    match_index: int,
) -> bool {
    &&& step.effects.len() == 1
    &&& step.effects[0].from == s.id
    &&& step.effects[0].to == to
    &&& step.effects[0].payload matches Payload::AppendEntriesReply(reply)
    &&& reply.term == term
    &&& reply.follower == s.id
    &&& reply.success == success
    &&& reply.conflict_term == conflict_term
    &&& reply.conflict_index == conflict_index
    &&& reply.match_index == match_index
}

/// From `s` to `u`, apart from log and progress, a node follows the leader of
/// a term that is not behind its own: it gives up any office, remembers the
/// leader, keeps its vote only within the term, and restarts its clock with a
/// timeout newly drawn.
pub open spec fn follows<C>(s: NodeState<C>, u: NodeState<C>, term: Term, leader: NodeId) -> bool {
    let drawn = range_draw(s.rng, s.config.min_election_ticks, s.config.max_election_ticks);
    u == NodeState {
        term,
        voted_for: if term > s.term {
            None
        } else {
            s.voted_for
        },
        standing: Standing::Follower,
        votes: Set::empty(),
        leader_id: Some(leader),
        election_elapsed: 0,
        election_timeout: drawn.0,
        rng: drawn.1,
        log: u.log,
        commit_index: u.commit_index,
        last_applied: u.last_applied,
        ..s
    }
}

/// What an AppendEntries does. Of an earlier term, it is refused and changes
/// nothing. Else the node follows its sender. If the log has no entry at
/// `prev_log_index`, it answers with the index behind its end; if it has one
/// of another term, with that term and the first index of the run of that
/// term; either way the log stays. Otherwise it takes the entries in, and if
/// the leader has committed more than it has, its commit index becomes the
/// smaller of the leader's and the last index sent, whatever the terms of the
/// entries; the commands that it has not yet applied up to there are handed
/// out.
pub proof fn law_append<C>(s: NodeState<C>, from: NodeId, to: NodeId, args: Append<C>)
    requires
        args.term >= s.term && args.prev_log_index <= s.log.len() && (args.prev_log_index == 0
            || s.log[args.prev_log_index - 1].term == args.prev_log_term) ==> args.prev_log_index
            + args.entries.len() <= u64::MAX,
    ensures
        ({
            let (u, step) = received(
                s,
                Message { from, to, payload: Payload::AppendEntries(args) },
            );
            let prev = args.prev_log_index as int;
            let last = prev + args.entries.len();
            &&& args.term < s.term ==> {
                &&& u == s
                &&& step.committed.len() == 0
                &&& answers(step, s, from, s.term, false, None, 0, 0)
            }
            &&& args.term >= s.term ==> follows(s, u, args.term, args.leader_id)
            &&& args.term >= s.term && prev > s.log.len() ==> {
                &&& u.log == s.log
                &&& u.commit_index == s.commit_index
                &&& u.last_applied == s.last_applied
                &&& step.committed.len() == 0
                &&& answers(step, s, from, args.term, false, None, s.log.len() as int + 1, 0)
            }
            &&& args.term >= s.term && 1 <= prev <= s.log.len() && s.log[prev - 1].term
                != args.prev_log_term ==> {
                &&& u.log == s.log
                &&& u.commit_index == s.commit_index
                &&& u.last_applied == s.last_applied
                &&& step.committed.len() == 0
                &&& exists|first: int| #[trigger]
                    starts_run(s.log, first, prev) && answers(
                        step,
                        s,
                        from,
                        args.term,
                        false,
                        Some(s.log[prev - 1].term),
                        first,
                        0,
                    )
            }
            &&& args.term >= s.term && prev <= s.log.len() && (prev == 0 || s.log[prev - 1].term
                == args.prev_log_term) ==> {
                &&& takes_in_entries(s.log, u.log, prev, args.entries)
                &&& args.leader_commit <= s.commit_index ==> u.commit_index == s.commit_index
                &&& args.leader_commit > s.commit_index && args.leader_commit <= last
                    ==> u.commit_index == args.leader_commit
                &&& args.leader_commit > s.commit_index && args.leader_commit > last
                    ==> u.commit_index == last
                &&& u.last_applied == (if s.last_applied < u.commit_index {
                    u.commit_index
                } else {
                    s.last_applied
                })
                &&& hands_out(
                    u.log,
                    s.last_applied as int,
                    u.commit_index as int,
                    step.committed,
                )
                &&& answers(step, s, from, args.term, true, None, 0, last)
            }
        }),
{
    let (u, step) = received(s, Message { from, to, payload: Payload::AppendEntries(args) });
    let prev = args.prev_log_index as int;
    if prev <= s.log.len() {
        lemma_takes_in_entries(s.log, prev, args.entries);
        if prev > 0 {
            lemma_run_start(s.log, prev);
        }
        let places = law_every_command_is_handed_out(
            u.log,
            s.last_applied as int,
            u.commit_index as int,
        );
    }
}

/// From `first` to `index` all entries have the same term, and the one before
/// has another.
pub open spec fn starts_run<C>(log: Seq<LogEntry<C>>, first: int, index: int) -> bool {
    &&& 1 <= first <= index <= log.len()
    &&& forall|j: int|
        #![trigger log[j]]
        first - 1 <= j < index ==> log[j].term == log[index - 1].term
    &&& first > 1 ==> log[first - 2].term != log[index - 1].term
}

proof fn lemma_run_start<C>(log: Seq<LogEntry<C>>, index: int)
    requires
        1 <= index <= log.len(),
    ensures
        starts_run(log, run_start(log, index), index),
    decreases index,
{
    if 1 < index && log[index - 2].term == log[index - 1].term {
        lemma_run_start(log, index - 1);
    }
}

// ---- leading ----------------------------------------------------------------------

/// `index` holds the last entry of `term`, and only higher terms follow.
pub open spec fn ends_term<C>(log: Seq<LogEntry<C>>, term: Term, index: int) -> bool {
    &&& 1 <= index <= log.len()
    &&& log[index - 1].term == term
    &&& forall|j: int| #![trigger log[j]] index <= j < log.len() ==> log[j].term > term
}

/// Where a leader goes on with a follower that refused: behind its own last
/// entry of the term in conflict, or else from where the follower says, and
/// never before the first entry.
pub open spec fn backs_up<C>(
    log: Seq<LogEntry<C>>,
    reply: AppendEntriesReply,
    next: LogIndex,
) -> bool {
    let hinted = if reply.conflict_index < 1 {
        1
    } else {
        reply.conflict_index
    };
    &&& reply.conflict_term is None ==> next == hinted
    &&& reply.conflict_term matches Some(term) ==> {
        &&& forall|index: int| #[trigger] ends_term(log, term, index) ==> next == index + 1
        &&& (forall|index: int| !#[trigger] ends_term(log, term, index)) ==> next == hinted
    }
}

proof fn lemma_backs_up<C>(log: Seq<LogEntry<C>>, term: Term, fallback: LogIndex, index: int)
    requires
        0 <= index <= log.len() < u64::MAX,
        forall|j: int| #![trigger log[j]] index <= j < log.len() ==> log[j].term > term,
    ensures
        forall|i: int| #[trigger]
            ends_term(log, term, i) ==> end_of_term(log, term, fallback, index) == i + 1,
        (forall|i: int| !#[trigger] ends_term(log, term, i)) ==> end_of_term(
            log,
            term,
            fallback,
            index,
        ) == fallback,
    decreases index,
{
    if index > 0 {
        let last = log[index - 1].term;
        if last == term {
            assert(ends_term(log, term, index));
            assert forall|i: int| #[trigger] ends_term(log, term, i) implies i == index by {
                if i < index {
                    assert(log[index - 1].term > term);
                } else if i > index {
                    assert(log[i - 1].term > term);
                }
            }
        } else if last < term {
            assert forall|i: int| !#[trigger] ends_term(log, term, i) by {
                if ends_term(log, term, i) {
                    if i < index {
                        assert(log[index - 1].term > term);
                    } else if i > index {
                        assert(log[i - 1].term > term);
                    }
                }
            }
        } else {
            lemma_backs_up(log, term, fallback, index - 1);
        }
    } else {
        assert forall|i: int| !#[trigger] ends_term(log, term, i) by {
            if ends_term(log, term, i) {
                assert(log[i - 1].term > term);
            }
        }
    }
}

/// What an answer to an AppendEntries does. Of a higher term, the node gives
/// way. Of an earlier one, to a node that does not lead, or from one that it
/// keeps no books on, it changes nothing. Else, on success, what is known to
/// match is raised to what was acknowledged, never lowered, and the next index
/// is the one behind; after a conflict the leader backs up. More is sent at
/// once after a conflict, or when the log goes on; and what may be committed
/// is.
pub proof fn law_append_reply<C>(
    s: NodeState<C>,
    from: NodeId,
    to: NodeId,
    reply: AppendEntriesReply,
)
    requires
        s.standing is Leader && reply.term == s.term
            && s.standing->Leader_next_index.contains_key(reply.follower) ==> if reply.success {
            reply.match_index < u64::MAX
        } else {
            s.log.len() < u64::MAX
        },
        s.standing matches Standing::Leader { next_index, match_index } ==> forall|peer: NodeId|
            match_index.contains_key(peer) ==> #[trigger] match_index[peer] < u64::MAX,
    ensures
        ({
            let (u, step) = received(
                s,
                Message { from, to, payload: Payload::AppendEntriesReply(reply) },
            );
            let peer = reply.follower;
            let next_index = s.standing->Leader_next_index;
            let match_index = s.standing->Leader_match_index;
            let heard = s.standing is Leader && reply.term == s.term && next_index.contains_key(
                peer,
            );
            &&& reply.term > s.term ==> gives_way(s, u, step, reply.term)
            &&& reply.term <= s.term && !heard ==> {
                &&& u == s
                &&& step.effects.len() == 0
                &&& step.committed.len() == 0
            }
            &&& heard ==> {
                &&& u.standing matches Standing::Leader { next_index: next, match_index: matched }
                &&& commits(NodeState { standing: u.standing, ..s }, u, step.committed)
                &&& next.contains_key(peer)
                &&& forall|other: NodeId|
                    other != peer ==> (#[trigger] next.contains_key(other)
                        <==> next_index.contains_key(other)) && (next_index.contains_key(other)
                        ==> next[other] == next_index[other])
                &&& forall|other: NodeId|
                    other != peer ==> (#[trigger] matched.contains_key(other)
                        <==> match_index.contains_key(other)) && (match_index.contains_key(other)
                        ==> matched[other] == match_index[other])
                &&& reply.success ==> {
                    &&& matched.contains_key(peer)
                    &&& matched[peer] >= reply.match_index
                    &&& match_index.contains_key(peer) ==> matched[peer] >= match_index[peer]
                    &&& matched[peer] == reply.match_index || (match_index.contains_key(peer)
                        && matched[peer] == match_index[peer])
                    &&& next[peer] == matched[peer] + 1
                    &&& next[peer] > s.log.len() ==> step.effects.len() == 0
                }
                &&& !reply.success ==> {
                    &&& matched.contains_key(peer) <==> match_index.contains_key(peer)
                    &&& match_index.contains_key(peer) ==> matched[peer] == match_index[peer]
                    &&& backs_up(s.log, reply, next[peer])
                }
                &&& !reply.success || next[peer] <= s.log.len() ==> {
                    &&& step.effects.len() == 1
                    &&& brings(
                        step.effects[0],
                        s.id,
                        s.term,
                        s.log,
                        s.commit_index,
                        peer,
                        next[peer] as int,
                    )
                }
            }
        }),
{
    let (u, step) = received(s, Message { from, to, payload: Payload::AppendEntriesReply(reply) });
    if s.standing is Leader && reply.term == s.term
        && s.standing->Leader_next_index.contains_key(reply.follower) {
        let t = NodeState {
            standing: reply_noted(
                s,
                s.standing->Leader_next_index,
                s.standing->Leader_match_index,
                reply,
            ),
            ..s
        };
        law_commit_rule(t);
        lemma_request(t, t.standing->Leader_next_index, reply.follower);
        if !reply.success && reply.conflict_term is Some {
            let term = reply.conflict_term->0;
            lemma_backs_up(s.log, term, reply.conflict_index, s.log.len() as int);
        }
    }
}

// ---- starting up ------------------------------------------------------------------

/// A node starts as a follower with what its storage holds; it knows no
/// leader and no vote, has committed and applied nothing, and its clocks
/// start. Its first timeout is the first draw of its generator.
pub proof fn law_start<C>(
    id: NodeId,
    peers: Seq<NodeId>,
    term: Term,
    voted_for: Option<NodeId>,
    log: Seq<LogEntry<C>>,
    rng: rand::rngs::StdRng,
    config: RaftConfig,
)
    ensures
        ({
            let s = fresh_node(id, peers, term, voted_for, log, rng, config);
            &&& s.id == id && s.peers == peers && s.config == config
            &&& s.term == term && s.voted_for == voted_for && s.log == log
            &&& s.standing is Follower && s.leader_id is None
            &&& s.votes == Set::<NodeId>::empty()
            &&& s.commit_index == 0 && s.last_applied == 0
            &&& s.election_elapsed == 0 && s.heartbeat_elapsed == 0
            &&& (s.election_timeout, s.rng) == range_draw(
                rng,
                config.min_election_ticks,
                config.max_election_ticks,
            )
        }),
{
}

/// What a step hands back is what it holds: the messages, one by one, and the
/// commands. An empty one holds neither, a single one just its message.
pub proof fn law_steps_are_read<C>(result: StepResult<C>, message: Message<C>)
    ensures
        result@.effects.len() == result.effects@.len(),
        forall|i: int|
            #![trigger result@.effects[i]]
            0 <= i < result.effects@.len() ==> result@.effects[i] == result.effects@[i]@,
        result@.committed == result.committed@,
        nothing::<C>().effects.len() == 0,
        nothing::<C>().committed.len() == 0,
        only(message).effects == seq![message],
        only(message).committed.len() == 0,
{
}

/// A node is of exactly one kind, the one of its role.
pub proof fn law_role_kind(standing: Standing)
    ensures
        role_kind(standing) == RoleKind::Leader <==> standing is Leader,
        role_kind(standing) == RoleKind::Candidate <==> standing is Candidate,
        role_kind(standing) == RoleKind::Follower <==> standing is Follower,
{
}

/// The index found for a majority is reached by that many nodes, the leader
/// counted, and no higher one is; none is found only where no index is such.
pub proof fn law_majority_index(
    match_index: Map<NodeId, LogIndex>,
    own_last: nat,
    majority: nat,
)
    ensures
        quorum_index(match_index, own_last, majority) matches Some(k) ==> reached_by(
            match_index,
            own_last,
            k as int,
        ) >= majority && forall|higher: LogIndex|
            k < higher ==> #[trigger] reached_by(match_index, own_last, higher as int) < majority,
        quorum_index(match_index, own_last, majority) is None ==> forall|k: LogIndex|
            #[trigger] reached_by(match_index, own_last, k as int) >= majority
                ==> exists|higher: LogIndex|
                k < higher && #[trigger] reached_by(match_index, own_last, higher as int)
                    >= majority,
{
    assert forall|k: int| #[trigger] reached_by(match_index, own_last, k) == nodes_reaching(
        match_index,
        own_last,
        k,
    ) by {
        assert(match_index.dom().filter(|peer: NodeId| match_index[peer] >= k) =~= peers_reaching(
            match_index,
            k,
        ));
    }
    match quorum_index(match_index, own_last, majority) {
        Some(k) => {
            assert(is_quorum_index(match_index, own_last, majority, k));
            assert forall|higher: LogIndex| k < higher implies #[trigger] reached_by(
                match_index,
                own_last,
                higher as int,
            ) < majority by {
                assert(nodes_reaching(match_index, own_last, higher as int) < majority);
            }
        },
        None => {
            assert forall|k: LogIndex| #[trigger] reached_by(match_index, own_last, k as int)
                >= majority implies exists|higher: LogIndex|
                k < higher && #[trigger] reached_by(match_index, own_last, higher as int)
                    >= majority by {
                assert(!is_quorum_index(match_index, own_last, majority, k));
                let higher = choose|higher: LogIndex|
                    k < higher && #[trigger] nodes_reaching(match_index, own_last, higher as int)
                        >= majority;
                assert(reached_by(match_index, own_last, higher as int) >= majority);
            }
        },
    }
}

/// How many nodes hold the log up to `k`, by what each is known to match.
pub open spec fn reached_by(match_index: Map<NodeId, LogIndex>, own_last: nat, k: int) -> int {
    match_index.dom().filter(|peer: NodeId| match_index[peer] >= k).len() + (if own_last >= k {
        1int
    } else {
        0int
    })
}

} // verus!
