//! A tick, a message or a proposal keeps the world safe, whatever it leads to.

use vstd::prelude::*;

use crate::protocol::{
    accepted, append_received, append_reply, append_reply_received, append_request, append_requests,
    can_receive, candidacy, caught_up, commit_advanced, committable, elected, election_started,
    follow_up, following, grants, max_of, moved_to_term, proposed, received, reply_noted, ticked,
    timer_reset, vote_reply, vote_reply_received, vote_requested, vote_requests, NodeState, Step,
};
use crate::rpc::{
    Append, AppendEntriesReply, Message, NodeId, Payload, RequestVoteArgs, RequestVoteReply,
};
use crate::safety::actions::{
    ballot_cast, crowned, entries_accepted, leader_appended, lemma_accept, lemma_append,
    lemma_candidacy, lemma_commit, lemma_count_vote, lemma_credit, lemma_follow, lemma_log_bounded,
    lemma_new_term, lemma_quiet, lemma_send, lemma_vote, lemma_win, with_node, with_sent,
};
use crate::safety::frame::{extends, lemma_commit_ok_bounded};
use crate::safety::world::{
    ack_ok, acked, leads_rightly, message_ok, node_ok, placed, reign_ok, safe, segment_of, History,
    World,
};
use crate::storage::{term_at, LogCommand};

verus! {

/// The world after node `n` went to state `t`, with history `g`.
pub open spec fn moved<C>(w: World<C>, n: NodeId, t: NodeState<C>, g: History<C>) -> World<C> {
    World { nodes: w.nodes.insert(n, t), history: g, ..w }
}

/// A step led to `result`: the world is safe with history `g`, in which all
/// that was to be sent was sent.
pub open spec fn leads_to<C>(
    w: World<C>,
    n: NodeId,
    result: (NodeState<C>, Step<C>),
    g: History<C>,
) -> bool {
    &&& safe(moved(w, n, result.0, g))
    &&& extends(w.history, g)
    &&& forall|i: int|
        0 <= i < result.1.effects.len() ==> g.sent.contains(#[trigger] result.1.effects[i])
}

// ---- messages are in order --------------------------------------------------------

proof fn lemma_append_request_ok<C>(w: World<C>, n: NodeId, peer: NodeId)
    requires
        safe(w),
        w.ids.contains(n),
        w.nodes[n].standing is Leader,
        peer != n,
    ensures
        message_ok(
            w,
            append_request(w.nodes[n], w.nodes[n].standing->Leader_next_index, peer),
        ),
{
    let s = w.nodes[n];
    let next_index = s.standing->Leader_next_index;
    assert(node_ok(w, n));
    assert(placed(w, n));
    assert(leads_rightly(w, n));
    let m = append_request(s, next_index, peer);
    let args = m.payload->AppendEntries_0;
    let next: int = if next_index.contains_key(peer) {
        next_index[peer] as int
    } else {
        1
    };
    let prev = args.prev_log_index as int;
    assert(segment_of(s.log, args)) by {
        if prev <= s.log.len() {
            if 1 <= next <= s.log.len() {
                assert(args.entries =~= s.log.subrange(prev, prev + args.entries.len()));
            } else {
                assert(args.entries =~= s.log.subrange(prev, prev + args.entries.len()));
            }
        }
    }
}

proof fn lemma_append_requests_ok<C>(w: World<C>, n: NodeId)
    requires
        safe(w),
        w.ids.contains(n),
        w.nodes[n].standing is Leader,
    ensures
        forall|i: int|
            0 <= i < append_requests(w.nodes[n]).len() ==> message_ok(
                w,
                #[trigger] append_requests(w.nodes[n])[i],
            ),
{
    let s = w.nodes[n];
    assert(node_ok(w, n));
    assert(placed(w, n));
    assert forall|i: int| 0 <= i < append_requests(s).len() implies message_ok(
        w,
        #[trigger] append_requests(s)[i],
    ) by {
        assert(s.peers.contains(s.peers[i]));
        lemma_append_request_ok(w, n, s.peers[i]);
    }
}

// ---- committing -------------------------------------------------------------------

proof fn lemma_caught_up<C>(w: World<C>, n: NodeId)
    requires
        safe(w),
        w.ids.contains(n),
    ensures
        safe(with_node(w, n, caught_up(w.nodes[n]).0)),
{
    lemma_quiet(w, n, caught_up(w.nodes[n]).0);
}

proof fn lemma_commit_advanced<C>(w: World<C>, n: NodeId)
    requires
        safe(w),
        w.ids.contains(n),
    ensures
        safe(with_node(w, n, commit_advanced(w.nodes[n]).0)),
{
    let s = w.nodes[n];
    match committable(s) {
        Some(index) => {
            lemma_commit(w, n, index);
            let v = with_node(w, n, NodeState { commit_index: index, ..s });
            lemma_caught_up(v, n);
            assert(with_node(v, n, commit_advanced(s).0) =~= with_node(
                w,
                n,
                commit_advanced(s).0,
            ));
        },
        None => {
            assert(with_node(w, n, s) =~= w);
        },
    }
}

/// A leader sends to all and commits what it can.
proof fn lemma_replicate<C>(w: World<C>, n: NodeId) -> (g: History<C>)
    requires
        safe(w),
        w.ids.contains(n),
        w.nodes[n].standing is Leader,
    ensures
        leads_to(
            w,
            n,
            (
                commit_advanced(w.nodes[n]).0,
                Step {
                    effects: append_requests(w.nodes[n]),
                    committed: commit_advanced(w.nodes[n]).1,
                },
            ),
            g,
        ),
        g.proposals == w.history.proposals,
{
    let s = w.nodes[n];
    lemma_append_requests_ok(w, n);
    lemma_send(w, append_requests(s));
    let v = with_sent(w, append_requests(s));
    lemma_commit_advanced(v, n);
    let t = commit_advanced(s).0;
    assert(with_node(v, n, t) =~= moved(w, n, t, v.history));
    v.history
}

/// The node that leads in the world after it won.
proof fn lemma_elected<C>(w: World<C>, n: NodeId) -> (g: History<C>)
    requires
        safe(w),
        w.ids.contains(n),
        w.nodes[n].standing is Candidate,
        w.nodes[n].votes.len() >= crate::protocol::majority_with(w.nodes[n].peers.len()),
        w.clock + w.history.proposals < u64::MAX,
    ensures
        leads_to(w, n, elected(w.nodes[n]), g),
        g.proposals == w.history.proposals,
{
    assert(node_ok(w, n));
    lemma_node_bounded(w, n);
    lemma_win(w, n);
    let v = crowned(w, n);
    let g = lemma_replicate(v, n);
    let t = elected(w.nodes[n]).0;
    assert(moved(v, n, t, g) =~= moved(w, n, t, g));
    g
}

// ---- the handlers -----------------------------------------------------------------

/// A node sends one message from where it is.
proof fn lemma_answer<C>(w: World<C>, n: NodeId, m: Message<C>) -> (g: History<C>)
    requires
        safe(w),
        w.ids.contains(n),
        message_ok(w, m),
    ensures
        leads_to(w, n, (w.nodes[n], crate::protocol::only(m)), g),
        g.sent.contains(m),
        g.proposals == w.history.proposals,
{
    let messages = seq![m];
    assert(messages[0] == m);
    lemma_send(w, messages);
    let v = with_sent(w, messages);
    assert(moved(w, n, w.nodes[n], v.history) =~= v);
    v.history
}

proof fn lemma_moved_to_term<C>(w: World<C>, n: NodeId, term: u64)
    requires
        safe(w),
        w.ids.contains(n),
        w.nodes[n].term < term <= w.clock,
    ensures
        safe(with_node(w, n, moved_to_term(w.nodes[n], term))),
{
    lemma_new_term(w, n, moved_to_term(w.nodes[n], term));
}

proof fn lemma_vote_requested<C>(
    w: World<C>,
    n: NodeId,
    m: Message<C>,
    args: RequestVoteArgs,
) -> (g: History<C>)
    requires
        safe(w),
        w.ids.contains(n),
        message_ok(w, m),
        m.to == n,
        m.payload == Payload::<C>::RequestVote(args),
    ensures
        leads_to(w, n, vote_requested(w.nodes[n], m.from, args), g),
        g.proposals == w.history.proposals,
{
    let s = w.nodes[n];
    assert(node_ok(w, n));
    assert(node_ok(w, m.from));
    if args.term < s.term {
        lemma_answer(w, n, vote_reply(s, m.from, false))
    } else {
        let t = if args.term > s.term {
            moved_to_term(s, args.term)
        } else {
            s
        };
        let v = with_node(w, n, t);
        if args.term > s.term {
            lemma_moved_to_term(w, n, args.term);
        } else {
            assert(v =~= w);
        }
        assert(message_ok(v, m));
        if grants(t, args) {
            lemma_vote(v, n, m, args);
            let voted = NodeState { voted_for: Some(args.candidate_id), ..t };
            let x = World {
                history: ballot_cast(v, n, args.candidate_id),
                ..with_node(v, n, voted)
            };
            let u = timer_reset(voted);
            lemma_quiet(x, n, u);
            let y = with_node(x, n, u);
            let g = lemma_answer(y, n, vote_reply(u, m.from, true));
            assert(moved(y, n, u, g) =~= moved(w, n, u, g));
            g
        } else {
            let g = lemma_answer(v, n, vote_reply(t, m.from, false));
            assert(moved(v, n, t, g) =~= moved(w, n, t, g));
            g
        }
    }
}

proof fn lemma_vote_reply_received<C>(
    w: World<C>,
    n: NodeId,
    m: Message<C>,
    reply: RequestVoteReply,
) -> (g: History<C>)
    requires
        safe(w),
        w.ids.contains(n),
        w.clock + w.history.proposals < u64::MAX,
        message_ok(w, m),
        m.to == n,
        m.payload == Payload::<C>::RequestVoteReply(reply),
    ensures
        leads_to(w, n, vote_reply_received(w.nodes[n], reply), g),
        g.proposals == w.history.proposals,
{
    let s = w.nodes[n];
    assert(node_ok(w, n));
    assert(node_ok(w, m.from));
    if reply.term > s.term {
        lemma_moved_to_term(w, n, reply.term);
        let t = moved_to_term(s, reply.term);
        assert(moved(w, n, t, w.history) =~= with_node(w, n, t));
        w.history
    } else if !(s.standing is Candidate) || reply.term != s.term || !reply.vote_granted {
        assert(moved(w, n, s, w.history) =~= w);
        w.history
    } else {
        let t = NodeState { votes: s.votes.insert(reply.voter), ..s };
        lemma_count_vote(w, n, reply.voter);
        let v = with_node(w, n, t);
        if t.votes.len() >= crate::protocol::majority_with(s.peers.len()) {
            let g = lemma_elected(v, n);
            let u = elected(t).0;
            assert(moved(v, n, u, g) =~= moved(w, n, u, g));
            g
        } else {
            assert(moved(w, n, t, w.history) =~= v);
            w.history
        }
    }
}

proof fn lemma_append_received<C>(
    w: World<C>,
    n: NodeId,
    m: Message<C>,
    args: Append<C>,
) -> (g: History<C>)
    requires
        safe(w),
        w.ids.contains(n),
        w.clock + w.history.proposals < u64::MAX,
        message_ok(w, m),
        m.to == n,
        m.payload == Payload::AppendEntries(args),
    ensures
        leads_to(w, n, append_received(w.nodes[n], m.from, args), g),
        g.proposals == w.history.proposals,
{
    let s = w.nodes[n];
    assert(node_ok(w, n));
    assert(placed(w, n));
    assert(reign_ok(w, args.term));
    assert(node_ok(w, m.from));
    if args.term < s.term {
        lemma_answer(w, n, append_reply(s, m.from, false, None, 0, 0))
    } else {
        let t = following(s, args);
        let v = with_node(w, n, t);
        if args.term > s.term {
            lemma_new_term(w, n, t);
        } else {
            assert(leads_rightly(w, n));
            lemma_follow(w, n, t);
        }
        assert(message_ok(v, m)) by {
            let log = w.history.reigns[args.term].log;
            lemma_commit_ok_bounded(w, log, args.leader_commit as int, args.term);
            crate::safety::frame::lemma_commit_ok_grows(
                w,
                v,
                log,
                log,
                args.leader_commit as int,
                args.term,
                args.term,
            );
        }
        let prev = args.prev_log_index as int;
        match term_at(t.log, prev) {
            None => {
                let g = lemma_answer(
                    v,
                    n,
                    append_reply(t, m.from, false, None, (t.log.len() + 1) as u64, 0),
                );
                assert(moved(v, n, t, g) =~= moved(w, n, t, g));
                g
            },
            Some(term) => {
                if prev > 0 && term != args.prev_log_term {
                    let g = lemma_answer(
                        v,
                        n,
                        append_reply(
                            t,
                            m.from,
                            false,
                            Some(term),
                            crate::protocol::run_start(t.log, prev) as u64,
                            0,
                        ),
                    );
                    assert(moved(v, n, t, g) =~= moved(w, n, t, g));
                    g
                } else {
                    lemma_accept(v, n, m, args);
                    let x = entries_accepted(v, n, args);
                    lemma_caught_up(x, n);
                    let u = caught_up(accepted(t, args)).0;
                    let y = with_node(x, n, u);
                    let last_new = (prev + args.entries.len()) as u64;
                    assert(prev + args.entries.len() <= u64::MAX) by {
                        assert(reign_ok(v, args.term));
                        if prev + args.entries.len() > v.history.reigns[args.term].log.len() {
                            assert(args.entries.len() == 0);
                        }
                    }
                    let reply = append_reply(u, m.from, true, None, 0, last_new);
                    assert(message_ok(y, reply));
                    let g = lemma_answer(y, n, reply);
                    assert(moved(y, n, u, g) =~= moved(w, n, u, g));
                    let result = append_received(s, m.from, args);
                    assert(result.0 == u);
                    assert(result.1.effects =~= seq![reply]);
                    g
                }
            },
        }
    }
}

proof fn lemma_append_reply_received<C>(
    w: World<C>,
    n: NodeId,
    m: Message<C>,
    reply: AppendEntriesReply,
) -> (g: History<C>)
    requires
        safe(w),
        w.ids.contains(n),
        message_ok(w, m),
        m.to == n,
        m.payload == Payload::<C>::AppendEntriesReply(reply),
    ensures
        leads_to(w, n, append_reply_received(w.nodes[n], reply), g),
        g.proposals == w.history.proposals,
{
    let s = w.nodes[n];
    assert(node_ok(w, n));
    assert(node_ok(w, m.from));
    if reply.term > s.term {
        lemma_moved_to_term(w, n, reply.term);
        let t = moved_to_term(s, reply.term);
        assert(moved(w, n, t, w.history) =~= with_node(w, n, t));
        w.history
    } else if reply.term < s.term || !(s.standing is Leader)
        || !s.standing->Leader_next_index.contains_key(reply.follower) {
        assert(append_reply_received(s, reply).0 == s);
        assert(moved(w, n, s, w.history) =~= w);
        w.history
    } else {
        let next_index = s.standing->Leader_next_index;
        let match_index = s.standing->Leader_match_index;
        let t = NodeState { standing: reply_noted(s, next_index, match_index, reply), ..s };
        let v = with_node(w, n, t);
        if reply.success {
            let known: u64 = if match_index.contains_key(reply.follower) {
                match_index[reply.follower]
            } else {
                0
            };
            assert(leads_rightly(w, n));
            assert(max_of(known, reply.match_index) <= acked(w.history, s.term, reply.follower));
            lemma_credit(w, n, reply.follower, max_of(known, reply.match_index), t);
        } else {
            lemma_quiet(w, n, t);
        }
        lemma_append_request_ok(v, n, reply.follower);
        let effects = follow_up(t, reply);
        assert forall|i: int| 0 <= i < effects.len() implies message_ok(
            v,
            #[trigger] effects[i],
        ) by {}
        lemma_send(v, effects);
        let x = with_sent(v, effects);
        lemma_commit_advanced(x, n);
        let u = commit_advanced(t).0;
        assert(with_node(x, n, u) =~= moved(w, n, u, x.history));
        x.history
    }
}

// ---- the inputs -------------------------------------------------------------------

/// A node's log is no longer than ticks have passed and commands were taken in.
pub proof fn lemma_node_bounded<C>(w: World<C>, n: NodeId)
    requires
        safe(w),
        w.ids.contains(n),
    ensures
        w.nodes[n].log.len() <= w.clock + w.history.proposals,
{
    let s = w.nodes[n];
    assert(node_ok(w, n));
    lemma_log_bounded(w, s.log);
    if s.log.len() > 0 {
        assert(s.log[s.log.len() - 1] == s.log.last());
    }
}

/// Every index that handling a message counts to exists.
pub proof fn lemma_can_receive<C>(w: World<C>, n: NodeId, m: Message<C>)
    requires
        safe(w),
        w.ids.contains(n),
        w.clock + w.history.proposals < u64::MAX,
        w.history.sent.contains(m),
    ensures
        can_receive(w.nodes[n], m),
{
    lemma_node_bounded(w, n);
    assert(message_ok(w, m));
    match m.payload {
        Payload::AppendEntries(args) => {
            assert(reign_ok(w, args.term));
            assert(node_ok(w, m.from));
        },
        Payload::AppendEntriesReply(reply) => {
            if reply.success && reply.match_index > 0 {
                assert(ack_ok(w, reply.term, m.from));
                assert(reign_ok(w, reply.term));
                assert(node_ok(w, m.from));
            }
        },
        _ => {},
    }
}

/// A message that was sent is received.
pub proof fn lemma_received<C>(w: World<C>, n: NodeId, m: Message<C>) -> (g: History<C>)
    requires
        safe(w),
        w.ids.contains(n),
        w.clock + w.history.proposals < u64::MAX,
        w.history.sent.contains(m),
        m.to == n,
    ensures
        leads_to(w, n, received(w.nodes[n], m), g),
        g.proposals == w.history.proposals,
{
    assert(message_ok(w, m));
    match m.payload {
        Payload::RequestVote(args) => lemma_vote_requested(w, n, m, args),
        Payload::RequestVoteReply(reply) => lemma_vote_reply_received(w, n, m, reply),
        Payload::AppendEntries(args) => lemma_append_received(w, n, m, args),
        Payload::AppendEntriesReply(reply) => lemma_append_reply_received(w, n, m, reply),
    }
}

/// A node starts an election.
pub proof fn lemma_election_started<C>(w: World<C>, n: NodeId) -> (g: History<C>)
    requires
        safe(w),
        w.ids.contains(n),
        w.clock + w.history.proposals < u64::MAX,
        w.nodes[n].term < w.clock,
        w.clock <= u64::MAX,
    ensures
        leads_to(w, n, election_started(w.nodes[n]), g),
        g.proposals == w.history.proposals,
{
    let s = w.nodes[n];
    let t = candidacy(s);
    assert(node_ok(w, n));
    assert(placed(w, n));
    lemma_candidacy(w, n, t);
    let x = with_node(w, n, t);
    let v = World { history: ballot_cast(x, n, n), ..x };
    if s.peers.len() == 0 {
        assert(t.votes.len() == 1);
        let g = lemma_elected(v, n);
        let u = elected(t).0;
        assert(moved(v, n, u, g) =~= moved(w, n, u, g));
        g
    } else {
        let effects = vote_requests(t);
        assert forall|i: int| 0 <= i < effects.len() implies message_ok(
            v,
            #[trigger] effects[i],
        ) by {
            assert(s.peers.contains(s.peers[i]));
        }
        lemma_send(v, effects);
        let y = with_sent(v, effects);
        assert(moved(w, n, t, y.history) =~= y);
        y.history
    }
}

/// Time passes for a node.
pub proof fn lemma_ticked<C>(w: World<C>, n: NodeId) -> (g: History<C>)
    requires
        safe(w),
        w.ids.contains(n),
        w.clock + w.history.proposals < u64::MAX,
        w.nodes[n].term < w.clock,
        w.clock <= u64::MAX,
    ensures
        leads_to(w, n, ticked(w.nodes[n]), g),
        g.proposals == w.history.proposals,
{
    let s = w.nodes[n];
    if s.standing is Leader {
        let t = ticked(s).0;
        lemma_quiet(w, n, t);
        let v = with_node(w, n, t);
        if s.heartbeat_elapsed + 1 >= s.config.heartbeat_ticks {
            lemma_append_requests_ok(v, n);
            lemma_send(v, append_requests(t));
            let x = with_sent(v, append_requests(t));
            assert(moved(w, n, t, x.history) =~= x);
            x.history
        } else {
            assert(moved(w, n, t, w.history) =~= v);
            w.history
        }
    } else if s.election_elapsed + 1 >= s.election_timeout {
        lemma_election_started(w, n)
    } else {
        let t = ticked(s).0;
        lemma_quiet(w, n, t);
        assert(moved(w, n, t, w.history) =~= with_node(w, n, t));
        w.history
    }
}

/// A leader takes in a command.
pub proof fn lemma_proposed<C>(w: World<C>, n: NodeId, command: C) -> (g: History<C>)
    requires
        safe(w),
        w.ids.contains(n),
        w.clock + w.history.proposals < u64::MAX,
        w.nodes[n].standing is Leader,
    ensures
        leads_to(w, n, proposed(w.nodes[n], command), g),
        g.proposals == w.history.proposals + 1,
{
    lemma_node_bounded(w, n);
    let entry = LogCommand::Command(command);
    lemma_append(w, n, entry);
    let v = leader_appended(w, n, entry);
    let g = lemma_replicate(v, n);
    let t = proposed(w.nodes[n], command).0;
    assert(moved(v, n, t, g) =~= moved(w, n, t, g));
    g
}

} // verus!
