//! The steps of a node, one by one: each keeps the world safe.

use vstd::prelude::*;

use crate::protocol::{
    accepted, appended, committable, divergence, grants, in_office, is_quorum_index, majority_with,
    merged, peers_reaching, up_to_date, NodeState, Standing,
};
use crate::quorum::lemma_majorities_intersect;
use crate::rpc::{Append, Message, NodeId, Payload, RequestVoteArgs, Term};
use crate::node_laws::lemma_divergence;
use crate::safety::frame::{
    extends, lemma_carried_before, lemma_commit_ok_bounded, lemma_commit_ok_grows,
    lemma_grounded_grows, lemma_inherits_grows, lemma_keeps_stays, lemma_own_entry_before,
    lemma_progress_stays, lemma_step_safe, reign_grows, steps,
};
use crate::safety::theorems::lemma_committed_carried;
use crate::safety::world::{
    ack_ok, acked, agree, ballot_ok, carried, commit_ok, committed, grounded, inherits, is_majority,
    keeps_acked, leads_rightly, message_ok, node_ok, orderly, own_entry, placed, reign_ok,
    runs_rightly, safe, vote_kept, Ballot, History, Reign, World,
};
use crate::storage::{last_term, prefix_before, term_at, LogCommand, LogEntry};

verus! {

/// The world with one node in another state.
pub open spec fn with_node<C>(w: World<C>, n: NodeId, s: NodeState<C>) -> World<C> {
    World { nodes: w.nodes.insert(n, s), ..w }
}

// ---- steps that safety does not see ---------------------------------------------

/// Nothing changed but clocks, hints, what a leader sends next, and how much
/// of what is committed was applied.
pub open spec fn same_core<C>(s: NodeState<C>, t: NodeState<C>) -> bool {
    &&& s.id == t.id
    &&& s.peers == t.peers
    &&& s.term == t.term
    &&& s.voted_for == t.voted_for
    &&& s.log == t.log
    &&& s.votes == t.votes
    &&& s.commit_index == t.commit_index
    &&& t.last_applied == s.last_applied || t.last_applied == s.commit_index
    &&& match (s.standing, t.standing) {
        (Standing::Leader { match_index: a, .. }, Standing::Leader { match_index: b, .. }) => a
            == b,
        _ => s.standing == t.standing,
    }
}

/// Only messages were added to the history.
pub open spec fn only_sent<C>(h: History<C>, g: History<C>) -> bool {
    &&& g == (History { sent: g.sent, ..h })
    &&& forall|m: Message<C>| #[trigger] h.sent.contains(m) ==> g.sent.contains(m)
}

proof fn lemma_unseen<C>(w: World<C>, v: World<C>, n: NodeId)
    requires
        safe(w),
        w.ids.contains(n),
        v.ids == w.ids,
        w.clock <= v.clock,
        only_sent(w.history, v.history),
        v.nodes == w.nodes.insert(n, v.nodes[n]),
        same_core(w.nodes[n], v.nodes[n]),
        forall|m: Message<C>|
            v.history.sent.contains(m) && !w.history.sent.contains(m) ==> #[trigger] message_ok(v, m),
    ensures
        safe(v),
{
    assert(node_ok(w, n));
    let s = w.nodes[n];
    let t = v.nodes[n];
    let h = w.history;
    let g = v.history;
    assert(extends(h, g));
    assert(v.nodes.dom() =~= w.nodes.dom());
    assert(steps(w, v, n));
    lemma_grounded_grows(h, g, t.log);
    lemma_progress_stays(w, v, s, t);
    assert(placed(v, n)) by {
        assert(placed(w, n));
    }
    assert forall|a: Term, m: NodeId| #[trigger] acked(g, a, m) == acked(h, a, m) by {}
    assert(vote_kept(v, n));
    assert(leads_rightly(v, n)) by {
        assert(leads_rightly(w, n));
    }
    assert(runs_rightly(v, n)) by {
        assert(runs_rightly(w, n));
    }
    assert(node_ok(v, n));
    lemma_keeps_stays(w, v, n);
    let term = t.term;
    if h.reigns.contains_key(term) && h.reigns[term].leader == n {
        assert(reign_ok(w, term));
        lemma_grounded_grows(h, g, h.reigns[term].log);
        assert forall|m: NodeId| #[trigger] h.reigns[term].voters.contains(m) implies inherits(
            g,
            term,
            m,
            h.reigns[term].log,
        ) by {
            lemma_inherits_grows(w, g, term, m, h.reigns[term].log, h.reigns[term].log);
        }
        assert(reign_ok(v, term));
    }
    if h.ballots.contains_key((term, n)) {
        assert(ballot_ok(w, term, n));
        let ballot = h.ballots[(term, n)];
        lemma_grounded_grows(h, g, ballot.log);
        if !h.reigns.contains_key(term) {
            lemma_inherits_grows(w, g, term, n, ballot.log, ballot.log);
        }
        assert(ballot_ok(v, term, n));
    }
    if h.acks.contains_key((term, n)) {
        assert(ack_ok(w, term, n));
        assert(ack_ok(v, term, n));
    }
    lemma_step_safe(w, v, n);
}

/// A step that safety does not see.
pub proof fn lemma_quiet<C>(w: World<C>, n: NodeId, t: NodeState<C>)
    requires
        safe(w),
        w.ids.contains(n),
        same_core(w.nodes[n], t),
    ensures
        safe(with_node(w, n, t)),
{
    let v = with_node(w, n, t);
    assert(v.nodes =~= w.nodes.insert(n, v.nodes[n]));
    lemma_unseen(w, v, n);
}

/// The world with more messages sent.
pub open spec fn with_sent<C>(w: World<C>, messages: Seq<Message<C>>) -> World<C> {
    World {
        history: History { sent: w.history.sent.union(messages.to_set()), ..w.history },
        ..w
    }
}

/// Messages that are in order may be sent.
pub proof fn lemma_send<C>(w: World<C>, messages: Seq<Message<C>>)
    requires
        safe(w),
        forall|i: int| 0 <= i < messages.len() ==> message_ok(w, #[trigger] messages[i]),
    ensures
        safe(with_sent(w, messages)),
        extends(w.history, with_sent(w, messages).history),
        forall|i: int|
            0 <= i < messages.len() ==> with_sent(w, messages).history.sent.contains(
                #[trigger] messages[i],
            ),
{
    let v = with_sent(w, messages);
    assert forall|i: int| 0 <= i < messages.len() implies v.history.sent.contains(
        #[trigger] messages[i],
    ) by {
        assert(messages.contains(messages[i]));
    }
    if messages.len() == 0 {
        assert(v =~= w) by {
            assert(v.history.sent =~= w.history.sent);
        }
    } else {
        let n = messages[0].from;
        assert(v.nodes =~= w.nodes.insert(n, v.nodes[n]));
        lemma_sent_ok(w, messages);
        lemma_unseen(w, v, n);
    }
}

/// Messages that are in order before they are sent are so afterwards.
proof fn lemma_sent_ok<C>(w: World<C>, messages: Seq<Message<C>>)
    requires
        safe(w),
        forall|i: int| 0 <= i < messages.len() ==> message_ok(w, #[trigger] messages[i]),
    ensures
        forall|m: Message<C>|
            with_sent(w, messages).history.sent.contains(m) && !w.history.sent.contains(m)
                ==> #[trigger] message_ok(with_sent(w, messages), m),
{
    let v = with_sent(w, messages);
    assert(extends(w.history, v.history));
    assert forall|m: Message<C>|
        v.history.sent.contains(m) && !w.history.sent.contains(m) implies #[trigger] message_ok(
        v,
        m,
    ) by {
        assert(messages.contains(m));
        let i = choose|i: int| 0 <= i < messages.len() && messages[i] == m;
        assert(message_ok(w, messages[i]));
        if let Payload::AppendEntries(args) = m.payload {
            let log = w.history.reigns[args.term].log;
            lemma_commit_ok_bounded(w, log, args.leader_commit as int, args.term);
            lemma_commit_ok_grows(
                w,
                v,
                log,
                log,
                args.leader_commit as int,
                args.term,
                args.term,
            );
        }
    }
}

/// Time may pass.
pub proof fn lemma_clock<C>(w: World<C>, clock: nat)
    requires
        safe(w),
        w.clock <= clock,
    ensures
        safe(World { clock, ..w }),
{
    let v = World { clock, ..w };
    if exists|n: NodeId| w.ids.contains(n) {
        let n = choose|n: NodeId| w.ids.contains(n);
        assert(v.nodes =~= w.nodes.insert(n, v.nodes[n]));
        lemma_unseen(w, v, n);
    } else {
        assert forall|term: Term, m: NodeId| !w.history.ballots.contains_key((term, m)) by {
            if w.history.ballots.contains_key((term, m)) {
                assert(ballot_ok(w, term, m));
            }
        }
        assert forall|term: Term| !w.history.reigns.contains_key(term) by {
            if w.history.reigns.contains_key(term) {
                assert(reign_ok(w, term));
            }
        }
        assert forall|term: Term, m: NodeId| !w.history.acks.contains_key((term, m)) by {
            if w.history.acks.contains_key((term, m)) {
                assert(ack_ok(w, term, m));
            }
        }
        assert forall|m: Message<C>| !w.history.sent.contains(m) by {
            if w.history.sent.contains(m) {
                assert(message_ok(w, m));
            }
        }
    }
}

// ---- terms and votes ------------------------------------------------------------

/// A node moves to a higher term.
pub proof fn lemma_new_term<C>(w: World<C>, n: NodeId, t: NodeState<C>)
    requires
        safe(w),
        w.ids.contains(n),
        ({
            let s = w.nodes[n];
            &&& s.term < t.term <= w.clock
            &&& t.id == s.id
            &&& t.peers == s.peers
            &&& t.log == s.log
            &&& t.commit_index == s.commit_index
            &&& t.last_applied == s.last_applied
            &&& t.voted_for is None
            &&& t.standing is Follower
        }),
    ensures
        safe(with_node(w, n, t)),
{
    let v = with_node(w, n, t);
    let s = w.nodes[n];
    let h = w.history;
    assert(node_ok(w, n));
    assert(v.nodes.dom() =~= w.nodes.dom());
    assert(steps(w, v, n));
    assert(!h.ballots.contains_key((t.term, n))) by {
        if h.ballots.contains_key((t.term, n)) {
            assert(ballot_ok(w, t.term, n));
        }
    }
    assert(!(h.reigns.contains_key(t.term) && h.reigns[t.term].leader == n)) by {
        if h.reigns.contains_key(t.term) {
            assert(reign_ok(w, t.term));
        }
    }
    assert(!h.acks.contains_key((t.term, n))) by {
        if h.acks.contains_key((t.term, n)) {
            assert(ack_ok(w, t.term, n));
        }
    }
    lemma_progress_stays(w, v, s, t);
    assert(placed(v, n)) by {
        assert(placed(w, n));
    }
    assert(node_ok(v, n));
    lemma_keeps_stays(w, v, n);
    lemma_step_safe(w, v, n);
}

/// A node that does not lead follows in its own term.
pub proof fn lemma_follow<C>(w: World<C>, n: NodeId, t: NodeState<C>)
    requires
        safe(w),
        w.ids.contains(n),
        ({
            let s = w.nodes[n];
            &&& t.term == s.term
            &&& t.id == s.id
            &&& t.peers == s.peers
            &&& t.log == s.log
            &&& t.commit_index == s.commit_index
            &&& t.last_applied == s.last_applied
            &&& t.voted_for == s.voted_for
            &&& !(s.standing is Leader)
            &&& t.standing is Follower
        }),
    ensures
        safe(with_node(w, n, t)),
{
    let v = with_node(w, n, t);
    let s = w.nodes[n];
    let h = w.history;
    assert(node_ok(w, n));
    assert(v.nodes.dom() =~= w.nodes.dom());
    assert(steps(w, v, n));
    lemma_progress_stays(w, v, s, t);
    assert(placed(v, n)) by {
        assert(placed(w, n));
    }
    assert(node_ok(v, n));
    lemma_keeps_stays(w, v, n);
    if h.reigns.contains_key(t.term) && h.reigns[t.term].leader == n {
        assert(reign_ok(w, t.term));
        assert(false);
    }
    if h.ballots.contains_key((t.term, n)) {
        assert(ballot_ok(w, t.term, n));
        assert(ballot_ok(v, t.term, n));
    }
    if h.acks.contains_key((t.term, n)) {
        assert(ack_ok(w, t.term, n));
        assert(ack_ok(v, t.term, n));
    }
    lemma_step_safe(w, v, n);
}

/// The history after `n` votes for `candidate` in its term.
pub open spec fn ballot_cast<C>(w: World<C>, n: NodeId, candidate: NodeId) -> History<C> {
    let s = w.nodes[n];
    if w.history.ballots.contains_key((s.term, n)) {
        w.history
    } else {
        History {
            ballots: w.history.ballots.insert((s.term, n), Ballot { candidate, log: s.log }),
            ..w.history
        }
    }
}

/// A node keeps in a new ballot all it acknowledged before, if the term has
/// no leader yet.
proof fn lemma_ballot_inherits<C>(w: World<C>, n: NodeId)
    requires
        safe(w),
        w.ids.contains(n),
        !w.history.reigns.contains_key(w.nodes[n].term),
    ensures
        inherits(w.history, w.nodes[n].term, n, w.nodes[n].log),
{
    let h = w.history;
    let s = w.nodes[n];
    assert(keeps_acked(w, n));
    assert forall|t: Term, i: int|
        #![trigger own_entry(h, t, i)]
        t < s.term && i <= acked(h, t, n) && own_entry(h, t, i) && carried(
            h,
            t,
            s.term as int,
            i,
        ) implies agree(h.reigns[t].log, s.log, i) by {
        assert(carried(h, t, s.term + 1, i));
    }
}

/// A node grants its vote.
pub proof fn lemma_vote<C>(w: World<C>, n: NodeId, m: Message<C>, args: RequestVoteArgs)
    requires
        safe(w),
        w.ids.contains(n),
        message_ok(w, m),
        m.payload == Payload::<C>::RequestVote(args),
        args.term == w.nodes[n].term,
        grants(w.nodes[n], args),
    ensures
        ({
            let t = NodeState { voted_for: Some(args.candidate_id), ..w.nodes[n] };
            let v = World {
                history: ballot_cast(w, n, args.candidate_id),
                ..with_node(w, n, t)
            };
            &&& safe(v)
            &&& extends(w.history, v.history)
            &&& v.history.ballots.contains_key((t.term, n))
            &&& v.history.ballots[(t.term, n)].candidate == args.candidate_id
        }),
{
    let s = w.nodes[n];
    let c = args.candidate_id;
    let t = NodeState { voted_for: Some(c), ..s };
    let h = w.history;
    let g = ballot_cast(w, n, c);
    let v = World { history: g, ..with_node(w, n, t) };
    let key = (s.term, n);
    assert(node_ok(w, n));
    assert(v.nodes.dom() =~= w.nodes.dom());
    assert forall|a: Term, m: NodeId| #[trigger] acked(g, a, m) == acked(h, a, m) by {}
    assert(extends(h, g));
    assert(steps(w, v, n));
    lemma_grounded_grows(h, g, s.log);
    lemma_progress_stays(w, v, s, t);
    assert(placed(v, n)) by {
        assert(placed(w, n));
    }
    assert(leads_rightly(v, n));
    assert(runs_rightly(v, n));
    assert(vote_kept(v, n));
    assert(node_ok(v, n));
    lemma_keeps_stays(w, v, n);
    if h.reigns.contains_key(t.term) && h.reigns[t.term].leader == n {
        assert(reign_ok(w, t.term));
        lemma_grounded_grows(h, g, h.reigns[t.term].log);
        assert forall|m: NodeId| #[trigger] h.reigns[t.term].voters.contains(m) implies inherits(
            g,
            t.term,
            m,
            h.reigns[t.term].log,
        ) by {
            lemma_inherits_grows(w, g, t.term, m, h.reigns[t.term].log, h.reigns[t.term].log);
        }
        assert(reign_ok(v, t.term));
    }
    if h.ballots.contains_key(key) {
        assert(ballot_ok(w, t.term, n));
        let ballot = h.ballots[key];
        if !h.reigns.contains_key(t.term) {
            lemma_inherits_grows(w, g, t.term, n, ballot.log, ballot.log);
        }
        assert(ballot_ok(v, t.term, n));
    } else {
        assert(node_ok(w, c));
        if !h.reigns.contains_key(t.term) {
            lemma_ballot_inherits(w, n);
            lemma_inherits_grows(w, g, t.term, n, s.log, s.log);
        }
        assert(ballot_ok(v, t.term, n));
    }
    if h.acks.contains_key((t.term, n)) {
        assert(ack_ok(w, t.term, n));
        assert(ack_ok(v, t.term, n));
    }
    lemma_step_safe(w, v, n);
}

/// A node stands for election in the next term.
pub proof fn lemma_candidacy<C>(w: World<C>, n: NodeId, t: NodeState<C>)
    requires
        safe(w),
        w.ids.contains(n),
        ({
            let s = w.nodes[n];
            &&& t.term == s.term + 1
            &&& t.term <= w.clock
            &&& t.id == s.id
            &&& t.peers == s.peers
            &&& t.log == s.log
            &&& t.commit_index == s.commit_index
            &&& t.last_applied == s.last_applied
            &&& t.voted_for == Some(n)
            &&& t.standing is Candidate
            &&& t.votes == Set::empty().insert(n)
        }),
    ensures
        ({
            let v = World {
                history: ballot_cast(with_node(w, n, t), n, n),
                ..with_node(w, n, t)
            };
            &&& safe(v)
            &&& extends(w.history, v.history)
        }),
{
    let s = w.nodes[n];
    let h = w.history;
    let g = ballot_cast(with_node(w, n, t), n, n);
    let v = World { history: g, ..with_node(w, n, t) };
    let key = (t.term, n);
    assert(node_ok(w, n));
    assert(v.nodes.dom() =~= w.nodes.dom());
    assert(!h.ballots.contains_key(key)) by {
        if h.ballots.contains_key(key) {
            assert(ballot_ok(w, t.term, n));
        }
    }
    assert(!(h.reigns.contains_key(t.term) && h.reigns[t.term].leader == n)) by {
        if h.reigns.contains_key(t.term) {
            assert(reign_ok(w, t.term));
        }
    }
    assert(!h.acks.contains_key(key)) by {
        if h.acks.contains_key(key) {
            assert(ack_ok(w, t.term, n));
        }
    }
    assert forall|a: Term, m: NodeId| #[trigger] acked(g, a, m) == acked(h, a, m) by {}
    assert(extends(h, g));
    assert(steps(w, v, n));
    lemma_grounded_grows(h, g, s.log);
    lemma_progress_stays(w, v, s, t);
    assert(placed(v, n)) by {
        assert(placed(w, n));
    }
    assert(runs_rightly(v, n));
    assert(node_ok(v, n));
    lemma_keeps_stays(w, v, n);
    if !g.reigns.contains_key(t.term) {
        assert(inherits(g, t.term, n, s.log)) by {
            assert(keeps_acked(w, n));
            assert forall|a: Term, i: int|
                #![trigger own_entry(g, a, i)]
                a < t.term && i <= acked(g, a, n) && own_entry(g, a, i) && carried(
                    g,
                    a,
                    t.term as int,
                    i,
                ) implies agree(g.reigns[a].log, s.log, i) by {
                assert(own_entry(h, a, i));
                assert(carried(h, a, s.term + 1, i)) by {
                    lemma_carried_before(h, g, a, t.term as int, i);
                }
            }
        }
    }
    assert(ballot_ok(v, t.term, n));
    lemma_step_safe(w, v, n);
}

/// A candidate counts a vote that was cast for it.
pub proof fn lemma_count_vote<C>(w: World<C>, n: NodeId, voter: NodeId)
    requires
        safe(w),
        w.ids.contains(n),
        w.ids.contains(voter),
        w.nodes[n].standing is Candidate,
        w.history.ballots.contains_key((w.nodes[n].term, voter)),
        w.history.ballots[(w.nodes[n].term, voter)].candidate == n,
    ensures
        safe(
            with_node(
                w,
                n,
                NodeState { votes: w.nodes[n].votes.insert(voter), ..w.nodes[n] },
            ),
        ),
{
    let s = w.nodes[n];
    let t = NodeState { votes: s.votes.insert(voter), ..s };
    let v = with_node(w, n, t);
    let h = w.history;
    assert(node_ok(w, n));
    assert(v.nodes.dom() =~= w.nodes.dom());
    assert(steps(w, v, n));
    lemma_progress_stays(w, v, s, t);
    assert(placed(v, n)) by {
        assert(placed(w, n));
    }
    assert(runs_rightly(v, n)) by {
        assert(runs_rightly(w, n));
    }
    assert(node_ok(v, n));
    lemma_keeps_stays(w, v, n);
    if h.reigns.contains_key(t.term) && h.reigns[t.term].leader == n {
        assert(false);
    }
    if h.ballots.contains_key((t.term, n)) {
        assert(ballot_ok(w, t.term, n));
        assert(ballot_ok(v, t.term, n));
    }
    if h.acks.contains_key((t.term, n)) {
        assert(ack_ok(w, t.term, n));
        assert(ack_ok(v, t.term, n));
    }
    lemma_step_safe(w, v, n);
}

// ---- winning an election --------------------------------------------------------

/// In a safe world, logs that end in the same term are prefixes of one
/// another.
proof fn lemma_same_last_term<C>(
    h: History<C>,
    a: Seq<LogEntry<C>>,
    b: Seq<LogEntry<C>>,
)
    requires
        grounded(h, a),
        grounded(h, b),
        0 < a.len() <= b.len(),
        a.last().term == b.last().term,
    ensures
        agree(a, b, a.len() as int),
{
    let r = h.reigns[a.last().term].log;
    assert(a[a.len() - 1] == a.last());
    assert(b[b.len() - 1] == b.last());
    assert(agree(a, r, a.len() as int));
    assert(agree(b, r, b.len() as int));
    assert forall|j: int| #![trigger a[j]] #![trigger b[j]] 0 <= j < a.len() implies a[j] == b[j] by {
        assert(a[j] == r[j]);
        assert(b[j] == r[j]);
    }
}

/// What a voter acknowledged before, a candidate whose log is at least as up
/// to date has.
proof fn lemma_up_to_date_inherits<C>(
    w: World<C>,
    term: Term,
    m: NodeId,
    log: Seq<LogEntry<C>>,
)
    requires
        safe(w),
        !w.history.reigns.contains_key(term),
        w.history.ballots.contains_key((term, m)),
        grounded(w.history, log),
        orderly(log, term),
        log.len() <= u64::MAX,
        up_to_date(last_term(log), log.len() as u64, w.history.ballots[(term, m)].log),
    ensures
        inherits(w.history, term, m, log),
{
    let h = w.history;
    let ballot = h.ballots[(term, m)].log;
    assert(ballot_ok(w, term, m));
    assert(inherits(h, term, m, ballot));
    assert forall|t: Term, i: int|
        #![trigger own_entry(h, t, i)]
        t < term && i <= acked(h, t, m) && own_entry(h, t, i) && carried(
            h,
            t,
            term as int,
            i,
        ) implies agree(h.reigns[t].log, log, i) by {
        let r = h.reigns[t].log;
        assert(agree(r, ballot, i));
        assert(r[i - 1] == ballot[i - 1]);
        assert(ballot[i - 1].term == t);
        assert(t <= ballot.last().term) by {
            assert(ballot[i - 1].term <= ballot[ballot.len() - 1].term);
        }
        assert(t >= 1) by {
            assert(reign_ok(w, t));
        }
        assert(log.len() > 0);
        let u = log.last().term;
        assert(log[log.len() - 1] == log.last());
        if u == ballot.last().term {
            lemma_same_last_term(h, ballot, log);
            assert forall|j: int| #![trigger r[j]] #![trigger log[j]] 0 <= j < i implies r[j]
                == log[j] by {
                assert(r[j] == ballot[j]);
                assert(ballot[j] == log[j]);
            }
        } else {
            assert(t < u);
            assert(h.reigns.contains_key(u));
            assert(u < term);
            let x = h.reigns[u].log;
            assert(agree(r, x, i));
            assert(agree(log, x, log.len() as int));
            assert(reign_ok(w, u));
            assert(i <= log.len()) by {
                if log.len() < i {
                    assert(x[log.len() - 1].term <= x[i - 1].term);
                    assert(x[log.len() - 1] == log[log.len() - 1]);
                    assert(x[i - 1] == r[i - 1]);
                }
            }
            assert forall|j: int| #![trigger r[j]] #![trigger log[j]] 0 <= j < i implies r[j]
                == log[j] by {
                assert(r[j] == x[j]);
                assert(log[j] == x[j]);
            }
        }
    }
}

/// A log is no longer than the terms it spans and the commands taken in: each
/// leader adds one no-op of its own.
pub proof fn lemma_log_bounded<C>(w: World<C>, log: Seq<LogEntry<C>>)
    requires
        safe(w),
        grounded(w.history, log),
    ensures
        log.len() <= last_term(log) + w.history.proposals,
{
    if log.len() > 0 {
        assert(log[log.len() - 1] == log.last());
        assert(reign_ok(w, log.last().term));
    }
}

/// The world after the candidate `n` has won.
pub open spec fn crowned<C>(w: World<C>, n: NodeId) -> World<C> {
    let s = w.nodes[n];
    let t = appended(in_office(s), LogCommand::NoOp);
    let h = w.history;
    World {
        nodes: w.nodes.insert(n, t),
        history: History {
            reigns: h.reigns.insert(s.term, Reign { leader: n, voters: s.votes, log: t.log }),
            acks: h.acks.insert((s.term, n), t.log.len()),
            ..h
        },
        ..w
    }
}

/// A term in which a candidate has the votes of a majority has no leader yet.
proof fn lemma_vacant<C>(w: World<C>, n: NodeId)
    requires
        safe(w),
        w.ids.contains(n),
        w.nodes[n].standing is Candidate,
        w.nodes[n].votes.len() >= majority_with(w.nodes[n].peers.len()),
    ensures
        is_majority(w, w.nodes[n].votes),
        !w.history.reigns.contains_key(w.nodes[n].term),
{
    let s = w.nodes[n];
    assert(node_ok(w, n));
    assert(placed(w, n));
    assert(s.votes.subset_of(w.ids)) by {
        assert forall|m: NodeId| s.votes.contains(m) implies w.ids.contains(m) by {}
    }
    if w.history.reigns.contains_key(s.term) {
        assert(reign_ok(w, s.term));
        let m = lemma_majorities_intersect(w.ids, s.votes, w.history.reigns[s.term].voters);
    }
}

/// A candidate with a majority of votes becomes leader.
pub proof fn lemma_win<C>(w: World<C>, n: NodeId)
    requires
        safe(w),
        w.ids.contains(n),
        w.nodes[n].standing is Candidate,
        w.nodes[n].votes.len() >= majority_with(w.nodes[n].peers.len()),
        w.nodes[n].log.len() < u64::MAX,
    ensures
        safe(crowned(w, n)),
        extends(w.history, crowned(w, n).history),
{
    lemma_vacant(w, n);
    let s = w.nodes[n];
    let term = s.term;
    let v = crowned(w, n);
    let t = v.nodes[n];
    let h = w.history;
    let g = v.history;
    let key = (term, n);
    assert(node_ok(w, n));
    assert(v.nodes.dom() =~= w.nodes.dom());
    assert(!h.acks.contains_key(key)) by {
        if h.acks.contains_key(key) {
            assert(ack_ok(w, term, n));
        }
    }
    assert forall|a: Term, m: NodeId| !(a == term && m == n) implies #[trigger] acked(g, a, m)
        == acked(h, a, m) by {}
    assert(extends(h, g));
    assert(steps(w, v, n));
    assert(agree(s.log, t.log, s.log.len() as int));
    // The log.
    lemma_grounded_grows(h, g, s.log);
    assert(grounded(g, t.log)) by {
        assert forall|k: int| #![trigger t.log[k]] 0 <= k < t.log.len() implies g.reigns.contains_key(
            t.log[k].term,
        ) && agree(t.log, g.reigns[t.log[k].term].log, k + 1) by {
            if k < s.log.len() {
                assert(t.log[k] == s.log[k]);
                let r = g.reigns[s.log[k].term].log;
                assert(agree(s.log, r, k + 1));
                assert forall|j: int|
                    #![trigger t.log[j]]
                    #![trigger r[j]]
                    0 <= j < k + 1 implies t.log[j] == r[j] by {
                    assert(s.log[j] == r[j]);
                }
            }
        }
    }
    assert(term >= 1);
    assert(orderly(t.log, term)) by {
        assert forall|i: int, j: int|
            #![trigger t.log[i], t.log[j]]
            0 <= i <= j < t.log.len() implies t.log[i].term <= t.log[j].term by {
            if j < s.log.len() {
                assert(s.log[i].term <= s.log[j].term);
            } else if i < s.log.len() {
                assert(s.log[i].term <= term);
            }
        }
        assert forall|i: int| #![trigger t.log[i]] 0 <= i < t.log.len() implies 1 <= t.log[i].term
            <= term && t.log[i].index == i + 1 by {
            if i < s.log.len() {
                assert(s.log[i].index == i + 1);
            }
        }
    }
    lemma_progress_stays(w, v, s, t);
    assert(placed(v, n)) by {
        assert(placed(w, n));
    }
    assert(vote_kept(v, n));
    assert(leads_rightly(v, n)) by {
        let match_index = t.standing->Leader_match_index;
        assert(match_index.dom() =~= s.peers.to_set());
        vstd::seq_lib::seq_to_set_is_finite(s.peers);
        assert forall|p: NodeId| #[trigger] match_index.contains_key(p) implies w.ids.contains(p)
            && p != n by {
            assert(s.peers.contains(p));
        }
    }
    assert(node_ok(v, n));
    // What was acknowledged.
    assert(keeps_acked(v, n)) by {
        assert(keeps_acked(w, n));
        assert forall|a: Term, i: int|
            #![trigger own_entry(g, a, i)]
            a <= t.term && i <= acked(g, a, n) && own_entry(g, a, i) && carried(
                g,
                a,
                t.term + 1,
                i,
            ) implies agree(g.reigns[a].log, t.log, i) by {
            if a < term {
                lemma_own_entry_before(w, g, a, n, i);
                lemma_carried_before(h, g, a, t.term + 1, i);
                assert(agree(h.reigns[a].log, s.log, i));
            }
        }
    }
    // The reign.
    assert(t.log.len() <= term + h.proposals) by {
        lemma_log_bounded(w, s.log);
        if s.log.len() > 0 {
            assert(s.log[s.log.len() - 1] == s.log.last());
            assert(s.log.last().term != term);
        }
    }
    assert(reign_ok(v, term)) by {
        assert forall|m: NodeId| #[trigger] s.votes.contains(m) implies inherits(
            g,
            term,
            m,
            t.log,
        ) by {
            assert(h.ballots.contains_key((term, m)));
            assert(ballot_ok(w, term, m));
            lemma_up_to_date_inherits(w, term, m, s.log);
            lemma_inherits_grows(w, g, term, m, s.log, t.log);
        }
    }
    assert(h.ballots.contains_key(key) ==> ballot_ok(v, term, n)) by {
        if h.ballots.contains_key(key) {
            assert(ballot_ok(w, term, n));
            lemma_grounded_grows(h, g, h.ballots[key].log);
        }
    }
    assert(ack_ok(v, term, n));
    lemma_step_safe(w, v, n);
}

// ---- replication ----------------------------------------------------------------

/// The world after the leader `n` has appended an entry.
pub open spec fn leader_appended<C>(w: World<C>, n: NodeId, command: LogCommand<C>) -> World<C> {
    let s = w.nodes[n];
    let t = appended(s, command);
    let h = w.history;
    World {
        nodes: w.nodes.insert(n, t),
        history: History {
            reigns: h.reigns.insert(s.term, Reign { log: t.log, ..h.reigns[s.term] }),
            acks: h.acks.insert((s.term, n), t.log.len()),
            proposals: h.proposals + 1,
            ..h
        },
        ..w
    }
}

/// A leader appends an entry of its own term.
pub proof fn lemma_append<C>(w: World<C>, n: NodeId, command: LogCommand<C>)
    requires
        safe(w),
        w.ids.contains(n),
        w.nodes[n].standing is Leader,
        w.nodes[n].log.len() < u64::MAX,
    ensures
        safe(leader_appended(w, n, command)),
        extends(w.history, leader_appended(w, n, command).history),
{
    let s = w.nodes[n];
    let term = s.term;
    let v = leader_appended(w, n, command);
    let t = v.nodes[n];
    let h = w.history;
    let g = v.history;
    let key = (term, n);
    assert(node_ok(w, n));
    assert(leads_rightly(w, n));
    assert(reign_ok(w, term));
    assert(v.nodes.dom() =~= w.nodes.dom());
    assert(agree(s.log, t.log, s.log.len() as int));
    assert forall|a: Term, m: NodeId| !(a == term && m == n) implies #[trigger] acked(g, a, m)
        == acked(h, a, m) by {}
    assert(extends(h, g)) by {
        assert forall|a: Term| #[trigger] h.reigns.contains_key(a) implies reign_grows(h, g, a) by {
            if a == term {
                assert(h.reigns[a].log == s.log);
            }
        }
        assert forall|a: Term, m: NodeId| acked(h, a, m) <= #[trigger] acked(g, a, m) by {
            if a == term && m == n {
                assert(acked(h, term, n) == s.log.len());
            }
        }
    }
    assert(steps(w, v, n));
    lemma_grounded_grows(h, g, s.log);
    assert(grounded(g, t.log)) by {
        assert forall|k: int| #![trigger t.log[k]] 0 <= k < t.log.len() implies g.reigns.contains_key(
            t.log[k].term,
        ) && agree(t.log, g.reigns[t.log[k].term].log, k + 1) by {
            if k < s.log.len() {
                assert(t.log[k] == s.log[k]);
                let r = g.reigns[s.log[k].term].log;
                assert(agree(s.log, r, k + 1));
                assert forall|j: int|
                    #![trigger t.log[j]]
                    #![trigger r[j]]
                    0 <= j < k + 1 implies t.log[j] == r[j] by {
                    assert(s.log[j] == r[j]);
                }
            }
        }
    }
    assert(orderly(t.log, term)) by {
        assert forall|i: int, j: int|
            #![trigger t.log[i], t.log[j]]
            0 <= i <= j < t.log.len() implies t.log[i].term <= t.log[j].term by {
            if j < s.log.len() {
                assert(s.log[i].term <= s.log[j].term);
            } else if i < s.log.len() {
                assert(s.log[i].term <= term);
            }
        }
        assert forall|i: int| #![trigger t.log[i]] 0 <= i < t.log.len() implies 1 <= t.log[i].term
            <= term && t.log[i].index == i + 1 by {
            if i < s.log.len() {
                assert(s.log[i].index == i + 1);
            }
        }
    }
    lemma_progress_stays(w, v, s, t);
    assert(placed(v, n)) by {
        assert(placed(w, n));
    }
    assert(vote_kept(v, n));
    assert(leads_rightly(v, n)) by {
        let match_index = t.standing->Leader_match_index;
        assert forall|p: NodeId| #[trigger] match_index.contains_key(p) implies match_index[p]
            <= acked(g, term, p) by {
            assert(acked(g, term, p) == acked(h, term, p));
        }
    }
    assert(node_ok(v, n));
    assert(keeps_acked(v, n)) by {
        assert(keeps_acked(w, n));
        assert forall|a: Term, i: int|
            #![trigger own_entry(g, a, i)]
            a <= t.term && i <= acked(g, a, n) && own_entry(g, a, i) && carried(
                g,
                a,
                t.term + 1,
                i,
            ) implies agree(g.reigns[a].log, t.log, i) by {
            if a < term {
                lemma_own_entry_before(w, g, a, n, i);
                lemma_carried_before(h, g, a, t.term + 1, i);
                assert(agree(h.reigns[a].log, s.log, i));
            }
        }
    }
    assert(reign_ok(v, term)) by {
        let voters = h.reigns[term].voters;
        assert forall|m: NodeId| #[trigger] voters.contains(m) implies inherits(
            g,
            term,
            m,
            t.log,
        ) by {
            lemma_inherits_grows(w, g, term, m, s.log, t.log);
        }
    }
    if h.ballots.contains_key(key) {
        assert(ballot_ok(w, term, n));
        lemma_grounded_grows(h, g, h.ballots[key].log);
        assert(ballot_ok(v, term, n));
    }
    assert(ack_ok(v, term, n));
    lemma_step_safe(w, v, n);
}

/// Taking in a piece of a leader's log: the log agrees with the leader's to
/// the end of the piece, and wherever it agreed before.
pub proof fn lemma_merge<C>(
    h: History<C>,
    log: Seq<LogEntry<C>>,
    leader_log: Seq<LogEntry<C>>,
    prev: int,
    entries: Seq<LogEntry<C>>,
)
    requires
        grounded(h, log),
        grounded(h, leader_log),
        0 <= prev <= log.len(),
        prev + entries.len() <= leader_log.len(),
        entries == leader_log.subrange(prev, prev + entries.len()),
        prev > 0 ==> log[prev - 1].term == leader_log[prev - 1].term,
    ensures
        agree(merged(log, prev, entries), leader_log, prev + entries.len()),
        merged(log, prev, entries) == log || merged(log, prev, entries) == leader_log.take(
            prev + entries.len(),
        ),
        forall|i: int|
            #![trigger agree(log, leader_log, i)]
            agree(log, leader_log, i) ==> agree(merged(log, prev, entries), leader_log, i),
{
    let last = prev + entries.len();
    let d = divergence(log, prev, entries, 0);
    let new = merged(log, prev, entries);
    lemma_divergence(log, prev, entries, 0);
    assert forall|k: int|
        0 <= k < log.len() && k < leader_log.len() && (#[trigger] log[k]).term
            == leader_log[k].term implies agree(log, leader_log, k + 1) by {
        let r = h.reigns[log[k].term].log;
        assert(agree(log, r, k + 1));
        assert(agree(leader_log, r, k + 1));
        assert forall|j: int|
            #![trigger log[j]]
            #![trigger leader_log[j]]
            0 <= j < k + 1 implies log[j] == leader_log[j] by {
            assert(log[j] == r[j]);
            assert(leader_log[j] == r[j]);
        }
    }
    assert(agree(log, leader_log, prev + d)) by {
        if d > 0 {
            assert(entries[d - 1] == leader_log[prev + d - 1]);
            assert(log[prev + d - 1].term == leader_log[prev + d - 1].term);
        } else if prev > 0 {
            assert(log[prev - 1].term == leader_log[prev - 1].term);
        }
    }
    if d < entries.len() {
        assert(entries[d] == leader_log[prev + d]);
        let kept = prefix_before(log, prev + 1 + d);
        assert(kept =~= log.take(prev + d));
        assert(new =~= leader_log.take(last)) by {
            assert(new.len() == last);
            assert forall|j: int| 0 <= j < last implies new[j] == leader_log[j] by {
                if j < prev + d {
                    assert(log[j] == leader_log[j]);
                } else {
                    assert(new[j] == entries.skip(d)[j - (prev + d)]);
                    assert(entries[j - prev] == leader_log[j]);
                }
            }
        }
        assert forall|i: int| #![trigger agree(log, leader_log, i)] agree(
            log,
            leader_log,
            i,
        ) implies agree(new, leader_log, i) by {
            if i > prev + d {
                assert(log[prev + d] == leader_log[prev + d]);
            }
        }
    }
}

/// The world after `n` has accepted entries from the leader of its term.
pub open spec fn entries_accepted<C>(w: World<C>, n: NodeId, args: Append<C>) -> World<C> {
    let s = w.nodes[n];
    let last_new = (args.prev_log_index + args.entries.len()) as nat;
    let before = acked(w.history, s.term, n);
    World {
        nodes: w.nodes.insert(n, accepted(s, args)),
        history: History {
            acks: w.history.acks.insert(
                (s.term, n),
                if before < last_new {
                    last_new
                } else {
                    before
                },
            ),
            ..w.history
        },
        ..w
    }
}

/// Committed entries stay, whatever a leader of the same or a later term
/// sends.
proof fn lemma_commit_ok_merged<C>(
    w: World<C>,
    v: World<C>,
    log: Seq<LogEntry<C>>,
    new: Seq<LogEntry<C>>,
    k: int,
    term: Term,
)
    requires
        safe(w),
        v.ids == w.ids,
        extends(w.history, v.history),
        commit_ok(w, log, k, term),
        k >= 0,
        w.history.reigns.contains_key(term),
        forall|i: int|
            #![trigger agree(log, w.history.reigns[term].log, i)]
            agree(log, w.history.reigns[term].log, i) ==> agree(
                new,
                w.history.reigns[term].log,
                i,
            ),
    ensures
        commit_ok(v, new, k, term),
{
    if k != 0 {
        let r = w.history.reigns[term].log;
        let (t, i) = choose|t: Term, i: int| #[trigger]
            committed(w, t, i) && t <= term && 0 <= k <= i && agree(
                log,
                w.history.reigns[t].log,
                k,
            );
        let x = w.history.reigns[t].log;
        if t < term {
            lemma_committed_carried(w, t, i, term);
        }
        assert(agree(log, r, k)) by {
            assert(agree(x, r, k)) by {
                if t < term {
                    assert(agree(x, r, i));
                }
            }
            assert forall|j: int| #![trigger log[j]] #![trigger r[j]] 0 <= j < k implies log[j]
                == r[j] by {
                assert(log[j] == x[j]);
                assert(x[j] == r[j]);
            }
        }
        assert(agree(new, r, k));
        assert(agree(new, x, k)) by {
            assert forall|j: int| #![trigger new[j]] #![trigger x[j]] 0 <= j < k implies new[j]
                == x[j] by {
                assert(new[j] == r[j]);
                assert(log[j] == x[j]);
                assert(log[j] == r[j]);
            }
        }
        assert(commit_ok(w, new, k, term));
        lemma_commit_ok_grows(w, v, new, new, k, term, term);
    }
}

/// A follower accepts entries from the leader of its term.
pub proof fn lemma_accept<C>(w: World<C>, n: NodeId, m: Message<C>, args: Append<C>)
    requires
        safe(w),
        w.ids.contains(n),
        message_ok(w, m),
        m.to == n,
        m.payload == Payload::AppendEntries(args),
        args.term == w.nodes[n].term,
        w.nodes[n].standing is Follower,
        term_at(w.nodes[n].log, args.prev_log_index as int) is Some,
        args.prev_log_index > 0 ==> term_at(w.nodes[n].log, args.prev_log_index as int) == Some(
            args.prev_log_term,
        ),
    ensures
        safe(entries_accepted(w, n, args)),
        extends(w.history, entries_accepted(w, n, args).history),
        acked(entries_accepted(w, n, args).history, args.term, n) >= args.prev_log_index
            + args.entries.len(),
{
    let s = w.nodes[n];
    let term = s.term;
    let v = entries_accepted(w, n, args);
    let t = v.nodes[n];
    let h = w.history;
    let g = v.history;
    let key = (term, n);
    let r = h.reigns[term].log;
    let prev = args.prev_log_index as int;
    let last_new = prev + args.entries.len();
    assert(node_ok(w, n));
    assert(reign_ok(w, term));
    assert(v.nodes.dom() =~= w.nodes.dom());
    // An index that no log can confirm is not confirmed.
    assert(!(prev > 0 && args.prev_log_term == 0)) by {
        if prev > 0 {
            assert(s.log[prev - 1].term >= 1);
        }
    }
    assert(last_new <= r.len());
    lemma_merge(h, s.log, r, prev, args.entries);
    assert(t.log == merged(s.log, prev, args.entries));
    assert(acked(h, term, n) <= r.len()) by {
        if h.acks.contains_key(key) {
            assert(ack_ok(w, term, n));
        }
    }
    assert forall|a: Term, m: NodeId| !(a == term && m == n) implies #[trigger] acked(g, a, m)
        == acked(h, a, m) by {}
    assert(extends(h, g));
    assert(steps(w, v, n));
    // The log.
    assert(grounded(g, t.log) && orderly(t.log, term)) by {
        if t.log == s.log {
            lemma_grounded_grows(h, g, s.log);
        } else {
            assert(t.log == r.take(last_new));
            assert forall|k: int|
                #![trigger t.log[k]]
                0 <= k < t.log.len() implies g.reigns.contains_key(t.log[k].term) && agree(
                t.log,
                g.reigns[t.log[k].term].log,
                k + 1,
            ) by {
                assert(t.log[k] == r[k]);
                let x = h.reigns[r[k].term].log;
                assert(agree(r, x, k + 1));
                assert forall|j: int|
                    #![trigger t.log[j]]
                    #![trigger x[j]]
                    0 <= j < k + 1 implies t.log[j] == x[j] by {
                    assert(r[j] == x[j]);
                }
            }
            assert forall|i: int, j: int|
                #![trigger t.log[i], t.log[j]]
                0 <= i <= j < t.log.len() implies t.log[i].term <= t.log[j].term by {
                assert(r[i].term <= r[j].term);
            }
            assert forall|i: int|
                #![trigger t.log[i]]
                0 <= i < t.log.len() implies 1 <= t.log[i].term <= term && t.log[i].index == i
                + 1 by {
                assert(r[i].index == i + 1);
            }
        }
    }
    // What is committed.
    lemma_commit_ok_merged(w, v, s.log, t.log, s.commit_index as int, term);
    lemma_commit_ok_merged(w, v, s.log, t.log, s.last_applied as int, term);
    assert(commit_ok(v, t.log, t.commit_index as int, term)) by {
        if args.leader_commit > s.commit_index {
            let k = t.commit_index as int;
            let (a, i) = choose|a: Term, i: int| #[trigger]
                committed(w, a, i) && a <= term && 0 <= args.leader_commit <= i && agree(
                    r,
                    h.reigns[a].log,
                    args.leader_commit as int,
                );
            assert(agree(r, h.reigns[a].log, k));
            assert(commit_ok(w, r, k, term));
            assert(agree(r, t.log, k)) by {
                assert(agree(t.log, r, last_new));
            }
            lemma_commit_ok_grows(w, v, r, t.log, k, term, term);
        }
    }
    assert(placed(v, n)) by {
        assert(placed(w, n));
    }
    assert(vote_kept(v, n));
    assert(node_ok(v, n));
    // What was acknowledged.
    assert(keeps_acked(v, n)) by {
        assert(keeps_acked(w, n));
        assert forall|a: Term, i: int|
            #![trigger own_entry(g, a, i)]
            a <= t.term && i <= acked(g, a, n) && own_entry(g, a, i) && carried(
                g,
                a,
                t.term + 1,
                i,
            ) implies agree(g.reigns[a].log, t.log, i) by {
            let x = h.reigns[a].log;
            assert(own_entry(h, a, i));
            if a < term {
                assert(carried(h, a, s.term + 1, i));
                assert(agree(x, s.log, i));
                assert(agree(x, r, i)) by {
                    assert(h.reigns.contains_key(term));
                }
                assert(agree(s.log, r, i)) by {
                    assert forall|j: int|
                        #![trigger s.log[j]]
                        #![trigger r[j]]
                        0 <= j < i implies s.log[j] == r[j] by {
                        assert(x[j] == s.log[j]);
                        assert(x[j] == r[j]);
                    }
                }
                assert(agree(t.log, r, i));
                assert forall|j: int| #![trigger x[j]] #![trigger t.log[j]] 0 <= j < i implies x[j]
                    == t.log[j] by {
                    assert(t.log[j] == r[j]);
                    assert(x[j] == r[j]);
                }
            } else {
                if i > last_new {
                    assert(i <= acked(h, term, n));
                    assert(carried(h, term, s.term + 1, i));
                    assert(agree(r, s.log, i));
                    assert(agree(s.log, r, i));
                    assert(agree(t.log, r, i));
                } else {
                    assert(agree(t.log, r, last_new));
                }
            }
        }
    }
    assert(h.reigns[term].leader != n);
    if h.ballots.contains_key(key) {
        assert(ballot_ok(w, term, n));
        assert(ballot_ok(v, term, n));
    }
    assert(ack_ok(v, term, n));
    lemma_step_safe(w, v, n);
}

/// A leader credits a follower with what it acknowledged.
pub proof fn lemma_credit<C>(w: World<C>, n: NodeId, p: NodeId, index: u64, t: NodeState<C>)
    requires
        safe(w),
        w.ids.contains(n),
        w.ids.contains(p),
        p != n,
        index <= acked(w.history, w.nodes[n].term, p),
        w.nodes[n].standing is Leader,
        t.standing is Leader,
        t.standing->Leader_match_index == w.nodes[n].standing->Leader_match_index.insert(p, index),
        t == (NodeState { standing: t.standing, ..w.nodes[n] }),
    ensures
        safe(with_node(w, n, t)),
{
    let s = w.nodes[n];
    let v = with_node(w, n, t);
    let h = w.history;
    let term = s.term;
    assert(node_ok(w, n));
    assert(v.nodes.dom() =~= w.nodes.dom());
    assert(steps(w, v, n));
    lemma_progress_stays(w, v, s, t);
    assert(placed(v, n)) by {
        assert(placed(w, n));
    }
    assert(leads_rightly(v, n)) by {
        assert(leads_rightly(w, n));
        let before = s.standing->Leader_match_index;
        let match_index = t.standing->Leader_match_index;
        assert forall|q: NodeId| #[trigger] match_index.contains_key(q) implies w.ids.contains(q)
            && q != n && match_index[q] <= acked(h, term, q) by {
            if q != p {
                assert(before.contains_key(q));
            }
        }
    }
    assert(node_ok(v, n));
    lemma_keeps_stays(w, v, n);
    assert(reign_ok(w, term));
    assert(reign_ok(v, term));
    if h.ballots.contains_key((term, n)) {
        assert(ballot_ok(w, term, n));
        assert(ballot_ok(v, term, n));
    }
    if h.acks.contains_key((term, n)) {
        assert(ack_ok(w, term, n));
        assert(ack_ok(v, term, n));
    }
    lemma_step_safe(w, v, n);
}

/// A leader advances its commit index.
pub proof fn lemma_commit<C>(w: World<C>, n: NodeId, index: u64)
    requires
        safe(w),
        w.ids.contains(n),
        committable(w.nodes[n]) == Some(index),
    ensures
        safe(with_node(w, n, NodeState { commit_index: index, ..w.nodes[n] })),
        committed(w, w.nodes[n].term, index as int),
{
    let s = w.nodes[n];
    let t = NodeState { commit_index: index, ..s };
    let v = with_node(w, n, t);
    let h = w.history;
    let term = s.term;
    let match_index = s.standing->Leader_match_index;
    let majority = majority_with(s.peers.len());
    assert(node_ok(w, n));
    assert(leads_rightly(w, n));
    assert(placed(w, n));
    assert(reign_ok(w, term));
    assert(is_quorum_index(match_index, s.log.len(), majority, index));
    let reaching = peers_reaching(match_index, index as int);
    let nodes = reaching.insert(n);
    match_index.dom().lemma_len_filter(|peer: NodeId| match_index[peer] >= index as int);
    assert(!reaching.contains(n)) by {
        if match_index.contains_key(n) {
        }
    }
    assert(is_majority(w, nodes)) by {
        assert forall|m: NodeId| nodes.contains(m) implies w.ids.contains(m) by {
            if m != n {
                assert(match_index.contains_key(m));
            }
        }
    }
    assert forall|m: NodeId| nodes.contains(m) implies #[trigger] acked(h, term, m) >= index by {
        if m != n {
            assert(match_index.contains_key(m));
        }
    }
    assert(committed(w, term, index as int));
    assert(v.nodes.dom() =~= w.nodes.dom());
    assert(steps(w, v, n));
    assert(commit_ok(w, s.log, index as int, term));
    lemma_commit_ok_bounded(w, s.log, s.last_applied as int, s.term);
    lemma_commit_ok_grows(w, v, s.log, t.log, t.commit_index as int, s.term, t.term);
    lemma_commit_ok_grows(w, v, s.log, t.log, t.last_applied as int, s.term, t.term);
    assert(placed(v, n));
    assert(leads_rightly(v, n));
    assert(node_ok(v, n));
    lemma_keeps_stays(w, v, n);
    assert(reign_ok(v, term));
    if h.ballots.contains_key((term, n)) {
        assert(ballot_ok(w, term, n));
        assert(ballot_ok(v, term, n));
    }
    if h.acks.contains_key((term, n)) {
        assert(ack_ok(w, term, n));
        assert(ack_ok(v, term, n));
    }
    lemma_step_safe(w, v, n);
}

} // verus!
