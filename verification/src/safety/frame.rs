//! What a step of one node leaves untouched for all others.

use vstd::prelude::*;

use crate::protocol::NodeState;
use crate::rpc::{Message, NodeId, Payload, Term};
use crate::safety::world::{
    ack_ok, acked, agree, ballot_ok, carried, commit_ok, committed, grounded, inherits, is_majority,
    keeps_acked, message_ok, node_ok, own_entry, reign_ok, safe, segment_of, History, World,
};
use crate::storage::LogEntry;

verus! {

/// A reign only ever grows, by entries of its own term.
pub open spec fn reign_grows<C>(h: History<C>, g: History<C>, term: Term) -> bool {
    let a = h.reigns[term];
    let b = g.reigns[term];
    &&& g.reigns.contains_key(term)
    &&& a.leader == b.leader
    &&& a.voters == b.voters
    &&& agree(a.log, b.log, a.log.len() as int)
    &&& forall|j: int|
        #![trigger b.log[j]]
        a.log.len() <= j < b.log.len() ==> b.log[j].term == term
}

/// History is only added to.
pub open spec fn extends<C>(h: History<C>, g: History<C>) -> bool {
    &&& forall|m: Message<C>| #[trigger] h.sent.contains(m) ==> g.sent.contains(m)
    &&& forall|key: (Term, NodeId)| #[trigger]
        h.ballots.contains_key(key) ==> g.ballots.contains_key(key) && g.ballots[key]
            == h.ballots[key]
    &&& forall|term: Term| #[trigger] h.reigns.contains_key(term) ==> reign_grows(h, g, term)
    &&& forall|term: Term, m: NodeId| acked(h, term, m) <= #[trigger] acked(g, term, m)
    &&& h.proposals <= g.proposals
}

/// What any step does to a node: the term never falls; in the same term a
/// leader stays one, and a candidate was one before, with the same log.
pub open spec fn node_moves<C>(s: NodeState<C>, t: NodeState<C>) -> bool {
    &&& s.term <= t.term
    &&& s.term == t.term && s.standing is Leader ==> t.standing is Leader
    &&& s.term == t.term && t.standing is Candidate ==> s.standing is Candidate && s.log == t.log
}

/// Node `n` took a step, and whatever was added to the history was added for
/// it, in its term.
pub open spec fn steps<C>(w: World<C>, v: World<C>, n: NodeId) -> bool {
    let term = v.nodes[n].term;
    &&& w.ids == v.ids
    &&& w.ids.contains(n)
    &&& w.clock <= v.clock
    &&& v.nodes.dom() == w.nodes.dom()
    &&& forall|m: NodeId| w.ids.contains(m) && m != n ==> #[trigger] v.nodes[m] == w.nodes[m]
    &&& node_moves(w.nodes[n], v.nodes[n])
    &&& extends(w.history, v.history)
    &&& forall|t: Term, m: NodeId|
        !(t == term && m == n) ==> #[trigger] acked(v.history, t, m) == acked(w.history, t, m)
    &&& forall|t: Term, m: NodeId|
        !(t == term && m == n) ==> (#[trigger] v.history.acks.contains_key((t, m))
            <==> w.history.acks.contains_key((t, m)))
    &&& forall|t: Term, m: NodeId|
        !(t == term && m == n) ==> (#[trigger] v.history.ballots.contains_key((t, m))
            <==> w.history.ballots.contains_key((t, m)))
    &&& forall|t: Term| #[trigger]
        w.history.reigns.contains_key(t) && !(t == term && w.history.reigns[t].leader == n)
            ==> v.history.reigns[t] == w.history.reigns[t]
    &&& forall|t: Term| #[trigger]
        v.history.reigns.contains_key(t) && !w.history.reigns.contains_key(t) ==> t == term
            && v.history.reigns[t].leader == n
}

// ---- what only ever becomes more true -------------------------------------------

pub proof fn lemma_agree_grows<C>(
    h: History<C>,
    g: History<C>,
    term: Term,
    log: Seq<LogEntry<C>>,
    n: int,
)
    requires
        h.reigns.contains_key(term),
        reign_grows(h, g, term),
        agree(log, h.reigns[term].log, n),
    ensures
        agree(log, g.reigns[term].log, n),
{
}

pub proof fn lemma_grounded_grows<C>(h: History<C>, g: History<C>, log: Seq<LogEntry<C>>)
    requires
        extends(h, g),
        grounded(h, log),
    ensures
        grounded(g, log),
{
    assert forall|k: int| #![trigger log[k]] 0 <= k < log.len() implies g.reigns.contains_key(
        log[k].term,
    ) && agree(log, g.reigns[log[k].term].log, k + 1) by {
        assert(h.reigns.contains_key(log[k].term));
        lemma_agree_grows(h, g, log[k].term, log, k + 1);
    }
}

pub proof fn lemma_own_entry_grows<C>(h: History<C>, g: History<C>, term: Term, i: int)
    requires
        extends(h, g),
        own_entry(h, term, i),
    ensures
        own_entry(g, term, i),
{
    assert(h.reigns.contains_key(term));
    assert(reign_grows(h, g, term));
    assert(h.reigns[term].log[i - 1] == g.reigns[term].log[i - 1]);
}

pub proof fn lemma_committed_grows<C>(w: World<C>, v: World<C>, term: Term, i: int)
    requires
        w.ids == v.ids,
        extends(w.history, v.history),
        committed(w, term, i),
    ensures
        committed(v, term, i),
{
    lemma_own_entry_grows(w.history, v.history, term, i);
    let nodes = choose|nodes: Set<NodeId>| #[trigger]
        is_majority(w, nodes) && forall|m: NodeId|
            nodes.contains(m) ==> #[trigger] acked(w.history, term, m) >= i;
    assert(is_majority(v, nodes));
    assert forall|m: NodeId| nodes.contains(m) implies #[trigger] acked(v.history, term, m)
        >= i by {
        assert(acked(w.history, term, m) >= i);
    }
}

pub proof fn lemma_commit_ok_grows<C>(
    w: World<C>,
    v: World<C>,
    log: Seq<LogEntry<C>>,
    longer: Seq<LogEntry<C>>,
    k: int,
    term: Term,
    later: Term,
)
    requires
        w.ids == v.ids,
        extends(w.history, v.history),
        commit_ok(w, log, k, term),
        term <= later,
        k > 0 ==> agree(log, longer, k),
    ensures
        commit_ok(v, longer, k, later),
{
    if k != 0 {
        let (t, i) = choose|t: Term, i: int| #[trigger]
            committed(w, t, i) && t <= term && 0 <= k <= i && agree(
                log,
                w.history.reigns[t].log,
                k,
            );
        lemma_committed_grows(w, v, t, i);
        assert(w.history.reigns.contains_key(t));
        lemma_agree_grows(w.history, v.history, t, log, k);
        assert(agree(longer, v.history.reigns[t].log, k));
    }
}

/// What a leader did not inherit it never gets: later entries are of its own
/// term.
pub proof fn lemma_carried_before<C>(
    h: History<C>,
    g: History<C>,
    term: Term,
    until: int,
    i: int,
)
    requires
        extends(h, g),
        own_entry(h, term, i),
        carried(g, term, until, i),
    ensures
        carried(h, term, until, i),
{
    assert(h.reigns.contains_key(term) && reign_grows(h, g, term));
    assert forall|t: Term|
        #![trigger h.reigns.contains_key(t)]
        term < t < until && h.reigns.contains_key(t) implies agree(
        h.reigns[term].log,
        h.reigns[t].log,
        i,
    ) by {
        assert(reign_grows(h, g, t));
        assert(g.reigns.contains_key(t));
        let a = g.reigns[term].log;
        let b = g.reigns[t].log;
        assert(agree(a, b, i));
        assert(a[i - 1] == h.reigns[term].log[i - 1]);
        assert(b[i - 1].term == term);
        assert(i <= h.reigns[t].log.len());
        assert forall|j: int|
            #![trigger h.reigns[term].log[j]]
            #![trigger h.reigns[t].log[j]]
            0 <= j < i implies h.reigns[term].log[j] == h.reigns[t].log[j] by {
            assert(a[j] == h.reigns[term].log[j]);
            assert(b[j] == h.reigns[t].log[j]);
        }
    }
}

/// An entry within what was acknowledged was there before.
pub proof fn lemma_own_entry_before<C>(w: World<C>, g: History<C>, term: Term, m: NodeId, i: int)
    requires
        safe(w),
        extends(w.history, g),
        own_entry(g, term, i),
        i <= acked(w.history, term, m),
    ensures
        own_entry(w.history, term, i),
{
    assert(w.history.acks.contains_key((term, m)));
    assert(ack_ok(w, term, m));
    assert(reign_grows(w.history, g, term));
    assert(w.history.reigns[term].log[i - 1] == g.reigns[term].log[i - 1]);
}

pub proof fn lemma_inherits_grows<C>(
    w: World<C>,
    g: History<C>,
    term: Term,
    m: NodeId,
    log: Seq<LogEntry<C>>,
    longer: Seq<LogEntry<C>>,
)
    requires
        safe(w),
        extends(w.history, g),
        inherits(w.history, term, m, log),
        forall|t: Term| t < term ==> #[trigger] acked(g, t, m) == acked(w.history, t, m),
        agree(log, longer, log.len() as int),
    ensures
        inherits(g, term, m, longer),
{
    let h = w.history;
    assert forall|t: Term, i: int|
        #![trigger own_entry(g, t, i)]
        t < term && i <= acked(g, t, m) && own_entry(g, t, i) && carried(
            g,
            t,
            term as int,
            i,
        ) implies agree(g.reigns[t].log, longer, i) by {
        lemma_own_entry_before(w, g, t, m, i);
        lemma_carried_before(h, g, t, term as int, i);
        assert(agree(h.reigns[t].log, log, i));
        assert(reign_grows(h, g, t));
    }
}

// ---- the others ---------------------------------------------------------------

proof fn lemma_message_stays<C>(w: World<C>, v: World<C>, n: NodeId, m: Message<C>)
    requires
        safe(w),
        steps(w, v, n),
        message_ok(w, m),
    ensures
        message_ok(v, m),
{
    assert(m.from == n || v.nodes[m.from] == w.nodes[m.from]);
    match m.payload {
        Payload::RequestVote(args) => {},
        Payload::RequestVoteReply(reply) => {
            if reply.vote_granted {
                assert(w.history.ballots.contains_key((reply.term, m.from)));
            }
        },
        Payload::AppendEntries(args) => {
            let a = w.history.reigns[args.term].log;
            let b = v.history.reigns[args.term].log;
            assert(reign_grows(w.history, v.history, args.term));
            assert(segment_of(b, args)) by {
                let prev = args.prev_log_index;
                if prev + args.entries.len() <= a.len() && args.entries == a.subrange(
                    prev as int,
                    prev + args.entries.len(),
                ) {
                    assert(args.entries =~= b.subrange(prev as int, prev + args.entries.len()));
                    if prev > 0 {
                        assert(a[prev - 1] == b[prev - 1]);
                    }
                }
            }
            lemma_commit_ok_bounded(w, a, args.leader_commit as int, args.term);
            lemma_commit_ok_grows(w, v, a, b, args.leader_commit as int, args.term, args.term);
        },
        Payload::AppendEntriesReply(reply) => {
            assert(acked(w.history, reply.term, m.from) <= acked(v.history, reply.term, m.from));
        },
    }
}

/// Only entries that are there can be committed.
pub proof fn lemma_commit_ok_bounded<C>(w: World<C>, log: Seq<LogEntry<C>>, k: int, term: Term)
    requires
        commit_ok(w, log, k, term),
        k >= 0,
    ensures
        k <= log.len(),
{
}

/// What a node has committed and applied it still has in a longer log, or in
/// a later term.
pub proof fn lemma_progress_stays<C>(w: World<C>, v: World<C>, s: NodeState<C>, t: NodeState<C>)
    requires
        w.ids == v.ids,
        extends(w.history, v.history),
        commit_ok(w, s.log, t.commit_index as int, s.term),
        commit_ok(w, s.log, t.last_applied as int, s.term),
        s.term <= t.term,
        agree(s.log, t.log, s.log.len() as int),
    ensures
        commit_ok(v, t.log, t.commit_index as int, t.term),
        commit_ok(v, t.log, t.last_applied as int, t.term),
{
    lemma_commit_ok_bounded(w, s.log, t.commit_index as int, s.term);
    lemma_commit_ok_bounded(w, s.log, t.last_applied as int, s.term);
    lemma_commit_ok_grows(w, v, s.log, t.log, t.commit_index as int, s.term, t.term);
    lemma_commit_ok_grows(w, v, s.log, t.log, t.last_applied as int, s.term, t.term);
}

proof fn lemma_ballot_stays<C>(w: World<C>, v: World<C>, n: NodeId, term: Term, m: NodeId)
    requires
        safe(w),
        steps(w, v, n),
        w.history.ballots.contains_key((term, m)),
    ensures
        ballot_ok(v, term, m),
{
    assert(ballot_ok(w, term, m));
    let ballot = w.history.ballots[(term, m)];
    assert(v.history.ballots[(term, m)] == ballot);
    let c = ballot.candidate;
    assert(m == n || v.nodes[m] == w.nodes[m]);
    assert(c == n || v.nodes[c] == w.nodes[c]);
    lemma_grounded_grows(w.history, v.history, ballot.log);
    if !v.history.reigns.contains_key(term) {
        assert(!w.history.reigns.contains_key(term)) by {
            if w.history.reigns.contains_key(term) {
                assert(reign_grows(w.history, v.history, term));
            }
        }
        assert forall|t: Term| t < term implies #[trigger] acked(v.history, t, m) == acked(
            w.history,
            t,
            m,
        ) by {}
        lemma_inherits_grows(w, v.history, term, m, ballot.log, ballot.log);
    }
}

proof fn lemma_reign_stays<C>(w: World<C>, v: World<C>, n: NodeId, term: Term)
    requires
        safe(w),
        steps(w, v, n),
        w.history.reigns.contains_key(term),
        !(term == v.nodes[n].term && w.history.reigns[term].leader == n),
    ensures
        reign_ok(v, term),
{
    assert(reign_ok(w, term));
    let reign = w.history.reigns[term];
    assert(v.history.reigns[term] == reign);
    let l = reign.leader;
    assert(l == n || v.nodes[l] == w.nodes[l]);
    lemma_grounded_grows(w.history, v.history, reign.log);
    assert forall|m: NodeId| #[trigger] reign.voters.contains(m) implies inherits(
        v.history,
        term,
        m,
        reign.log,
    ) by {
        assert(w.history.ballots.contains_key((term, m)));
        assert(ballot_ok(w, term, m));
        assert(m == n || v.nodes[m] == w.nodes[m]);
        assert forall|t: Term| t < term implies #[trigger] acked(v.history, t, m) == acked(
            w.history,
            t,
            m,
        ) by {}
        lemma_inherits_grows(w, v.history, term, m, reign.log, reign.log);
    }
    assert forall|m: NodeId| #[trigger] reign.voters.contains(m) implies v.history.ballots.contains_key(
        (term, m),
    ) && v.history.ballots[(term, m)].candidate == l by {
        assert(w.history.ballots.contains_key((term, m)));
    }
}

proof fn lemma_ack_stays<C>(w: World<C>, v: World<C>, n: NodeId, term: Term, m: NodeId)
    requires
        safe(w),
        steps(w, v, n),
        v.history.acks.contains_key((term, m)),
        !(term == v.nodes[n].term && m == n),
    ensures
        ack_ok(v, term, m),
{
    assert(w.history.acks.contains_key((term, m)));
    assert(ack_ok(w, term, m));
    assert(acked(v.history, term, m) == acked(w.history, term, m));
    assert(reign_grows(w.history, v.history, term));
    assert(m == n || v.nodes[m] == w.nodes[m]);
}

/// A node whose log and acknowledgements stay keeps what it acknowledged.
pub proof fn lemma_keeps_stays<C>(w: World<C>, v: World<C>, m: NodeId)
    requires
        safe(w),
        w.ids.contains(m),
        extends(w.history, v.history),
        agree(w.nodes[m].log, v.nodes[m].log, w.nodes[m].log.len() as int),
        w.nodes[m].term <= v.nodes[m].term,
        forall|t: Term| #[trigger] acked(v.history, t, m) == acked(w.history, t, m),
    ensures
        keeps_acked(v, m),
{
    assert(keeps_acked(w, m));
    let h = w.history;
    let g = v.history;
    let s = w.nodes[m];
    let r = v.nodes[m];
    assert forall|t: Term, i: int|
        #![trigger own_entry(g, t, i)]
        t <= r.term && i <= acked(g, t, m) && own_entry(g, t, i) && carried(
            g,
            t,
            r.term + 1,
            i,
        ) implies agree(g.reigns[t].log, r.log, i) by {
        lemma_own_entry_before(w, g, t, m, i);
        lemma_carried_before(h, g, t, r.term + 1, i);
        assert(ack_ok(w, t, m)) by {
            assert(h.acks.contains_key((t, m)));
        }
        assert(carried(h, t, s.term + 1, i));
        assert(agree(h.reigns[t].log, s.log, i));
        assert(reign_grows(h, g, t));
    }
}

proof fn lemma_node_stays<C>(w: World<C>, v: World<C>, n: NodeId, m: NodeId)
    requires
        safe(w),
        steps(w, v, n),
        w.ids.contains(m),
        m != n,
    ensures
        node_ok(v, m),
        keeps_acked(v, m),
{
    assert(node_ok(w, m));
    let s = w.nodes[m];
    assert(v.nodes[m] == s);
    lemma_grounded_grows(w.history, v.history, s.log);
    lemma_progress_stays(w, v, s, s);
    assert forall|t: Term| #[trigger] acked(v.history, t, m) == acked(w.history, t, m) by {}
    lemma_keeps_stays(w, v, m);
    assert(crate::safety::world::leads_rightly(v, m)) by {
        if let crate::protocol::Standing::Leader { next_index, match_index } = s.standing {
            assert(w.history.reigns.contains_key(s.term));
            assert(v.history.reigns[s.term] == w.history.reigns[s.term]);
            assert(reign_grows(w.history, v.history, s.term));
            assert forall|p: NodeId| #[trigger] match_index.contains_key(p) implies match_index[p]
                <= acked(v.history, s.term, p) by {
                assert(acked(w.history, s.term, p) <= acked(v.history, s.term, p));
            }
        }
    }
    assert(crate::safety::world::runs_rightly(v, m)) by {
        if s.standing is Candidate {
            if v.history.reigns.contains_key(s.term) && v.history.reigns[s.term].leader == m {
                if w.history.reigns.contains_key(s.term) {
                    assert(reign_grows(w.history, v.history, s.term));
                }
            }
            assert forall|p: NodeId| #[trigger] s.votes.contains(p) implies w.ids.contains(p)
                && v.history.ballots.contains_key((s.term, p)) && v.history.ballots[(
                s.term,
                p,
            )].candidate == m by {
                assert(w.history.ballots.contains_key((s.term, p)));
            }
        }
    }
    assert(crate::safety::world::vote_kept(v, m)) by {
        assert(v.history.ballots.contains_key((s.term, m)) <==> w.history.ballots.contains_key(
            (s.term, m),
        ));
    }
}

/// A step keeps the world safe if what it touched is in order: the node
/// itself, its reign, vote and acknowledgement in its term, and the messages
/// it sent.
pub proof fn lemma_step_safe<C>(w: World<C>, v: World<C>, n: NodeId)
    requires
        safe(w),
        steps(w, v, n),
        node_ok(v, n),
        keeps_acked(v, n),
        v.history.reigns.contains_key(v.nodes[n].term) && v.history.reigns[v.nodes[n].term].leader
            == n ==> reign_ok(v, v.nodes[n].term),
        v.history.ballots.contains_key((v.nodes[n].term, n)) ==> ballot_ok(v, v.nodes[n].term, n),
        v.history.acks.contains_key((v.nodes[n].term, n)) ==> ack_ok(v, v.nodes[n].term, n),
        forall|m: Message<C>|
            v.history.sent.contains(m) && !w.history.sent.contains(m) ==> #[trigger] message_ok(v, m),
    ensures
        safe(v),
{
    assert forall|m: NodeId| v.ids.contains(m) implies #[trigger] node_ok(v, m) by {
        if m != n {
            lemma_node_stays(w, v, n, m);
        }
    }
    assert forall|m: NodeId| v.ids.contains(m) implies #[trigger] keeps_acked(v, m) by {
        if m != n {
            lemma_node_stays(w, v, n, m);
        }
    }
    assert forall|t: Term, m: NodeId| v.history.ballots.contains_key((t, m)) implies #[trigger] ballot_ok(
        v,
        t,
        m,
    ) by {
        if !(t == v.nodes[n].term && m == n) {
            lemma_ballot_stays(w, v, n, t, m);
        }
    }
    assert forall|t: Term| v.history.reigns.contains_key(t) implies #[trigger] reign_ok(v, t) by {
        if !(t == v.nodes[n].term && v.history.reigns[t].leader == n) {
            if w.history.reigns.contains_key(t) {
                assert(reign_grows(w.history, v.history, t));
                lemma_reign_stays(w, v, n, t);
            }
        }
    }
    assert forall|t: Term, m: NodeId| v.history.acks.contains_key((t, m)) implies #[trigger] ack_ok(
        v,
        t,
        m,
    ) by {
        if !(t == v.nodes[n].term && m == n) {
            lemma_ack_stays(w, v, n, t, m);
        }
    }
    assert forall|m: Message<C>| v.history.sent.contains(m) implies #[trigger] message_ok(v, m) by {
        if w.history.sent.contains(m) {
            lemma_message_stays(w, v, n, m);
        }
    }
}

} // verus!
