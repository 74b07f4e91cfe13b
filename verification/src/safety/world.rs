//! A cluster with its history, and what always holds of it.

use vstd::prelude::*;

use crate::protocol::{majority_with, up_to_date, NodeState, Standing};
use crate::rpc::{Append, Message, NodeId, Payload, Term};
use crate::storage::{last_term, LogEntry};

verus! {

/// A vote: for whom, and the voter's log when it was cast.
#[verifier::ext_equal]
pub struct Ballot<C> {
    pub candidate: NodeId,
    pub log: Seq<LogEntry<C>>,
}

/// A term that has a leader: who it is, whose votes elected it, and its log
/// as far as it got in that term.
#[verifier::ext_equal]
pub struct Reign<C> {
    pub leader: NodeId,
    pub voters: Set<NodeId>,
    pub log: Seq<LogEntry<C>>,
}

/// What has happened so far.
#[verifier::ext_equal]
#[verifier::reject_recursive_types(C)]
pub struct History<C> {
    /// Every message ever sent.
    pub sent: Set<Message<C>>,
    /// Every vote, by term and voter.
    pub ballots: Map<(Term, NodeId), Ballot<C>>,
    /// Every leader's reign, by term.
    pub reigns: Map<Term, Reign<C>>,
    /// How far a node acknowledged the log of a term's leader.
    pub acks: Map<(Term, NodeId), nat>,
    /// How many commands leaders have taken in.
    pub proposals: nat,
}

/// The nodes of a cluster and their history.
#[verifier::ext_equal]
#[verifier::reject_recursive_types(C)]
pub struct World<C> {
    pub ids: Set<NodeId>,
    pub nodes: Map<NodeId, NodeState<C>>,
    pub history: History<C>,
    /// No node's term is higher than this.
    pub clock: nat,
}

/// How far `node` acknowledged the log of the leader of `term`.
pub open spec fn acked<C>(h: History<C>, term: Term, node: NodeId) -> nat {
    if h.acks.contains_key((term, node)) {
        h.acks[(term, node)]
    } else {
        0
    }
}

/// The two logs hold the same first `n` entries.
pub open spec fn agree<C>(a: Seq<LogEntry<C>>, b: Seq<LogEntry<C>>, n: int) -> bool {
    &&& n <= a.len()
    &&& n <= b.len()
    &&& forall|j: int| #![trigger a[j]] #![trigger b[j]] 0 <= j < n ==> a[j] == b[j]
}

/// Terms never decrease along the log, lie between `1` and `term`, and every
/// entry carries its own index.
pub open spec fn orderly<C>(log: Seq<LogEntry<C>>, term: Term) -> bool {
    &&& forall|i: int, j: int|
        #![trigger log[i], log[j]]
        0 <= i <= j < log.len() ==> log[i].term <= log[j].term
    &&& forall|i: int|
        #![trigger log[i]]
        0 <= i < log.len() ==> 1 <= log[i].term <= term && log[i].index == i + 1
}

/// Log matching: up to any of its entries, the log is the log of the leader
/// of that entry's term.
pub open spec fn grounded<C>(h: History<C>, log: Seq<LogEntry<C>>) -> bool {
    forall|k: int|
        #![trigger log[k]]
        0 <= k < log.len() ==> h.reigns.contains_key(log[k].term) && agree(
            log,
            h.reigns[log[k].term].log,
            k + 1,
        )
}

/// Index `i` of the log of the leader of `term` was written in that term.
pub open spec fn own_entry<C>(h: History<C>, term: Term, i: int) -> bool {
    &&& h.reigns.contains_key(term)
    &&& 1 <= i <= h.reigns[term].log.len()
    &&& h.reigns[term].log[i - 1].term == term
}

/// Every leader of a term after `term` and before `until` has the first `i`
/// entries of the leader of `term`.
pub open spec fn carried<C>(h: History<C>, term: Term, until: int, i: int) -> bool {
    forall|t: Term|
        #![trigger h.reigns.contains_key(t)]
        term < t < until && h.reigns.contains_key(t) ==> agree(
            h.reigns[term].log,
            h.reigns[t].log,
            i,
        )
}

/// What a majority of the cluster is.
pub open spec fn is_majority<C>(w: World<C>, nodes: Set<NodeId>) -> bool {
    &&& nodes.subset_of(w.ids)
    &&& nodes.len() >= majority_with((w.ids.len() - 1) as nat)
}

/// A majority has acknowledged index `i` of the log of the leader of `term`.
pub open spec fn majority_acked<C>(w: World<C>, term: Term, i: int) -> bool {
    exists|nodes: Set<NodeId>| #[trigger]
        is_majority(w, nodes) && forall|m: NodeId|
            nodes.contains(m) ==> #[trigger] acked(w.history, term, m) >= i
}

/// The leader of `term` may commit up to `i`.
pub open spec fn committed<C>(w: World<C>, term: Term, i: int) -> bool {
    own_entry(w.history, term, i) && majority_acked(w, term, i)
}

/// The first `k` entries of the log are committed, by leaders of terms up to
/// `term`.
pub open spec fn commit_ok<C>(w: World<C>, log: Seq<LogEntry<C>>, k: int, term: Term) -> bool {
    k == 0 || exists|t: Term, i: int| #[trigger] committed(w, t, i) && t <= term && 0 <= k <= i && agree(
        log,
        w.history.reigns[t].log,
        k,
    )
}

// ---- messages -----------------------------------------------------------------

/// The entries of an AppendEntries are those of the leader's log that follow
/// `prev`; or it asks about an index that no log can confirm.
pub open spec fn segment_of<C>(log: Seq<LogEntry<C>>, args: Append<C>) -> bool {
    let prev = args.prev_log_index;
    ||| {
        &&& prev + args.entries.len() <= log.len()
        &&& prev > 0 ==> args.prev_log_term == log[prev - 1].term
        &&& args.entries == log.subrange(prev as int, prev + args.entries.len())
    }
    ||| prev > 0 && args.prev_log_term == 0 && args.entries.len() == 0
}

pub open spec fn message_ok<C>(w: World<C>, m: Message<C>) -> bool {
    &&& w.ids.contains(m.from)
    &&& m.to != m.from
    &&& match m.payload {
        Payload::RequestVote(args) => {
            let s = w.nodes[m.from];
            &&& args.candidate_id == m.from
            &&& 1 <= args.term <= s.term
            &&& s.term == args.term && s.standing is Candidate ==> args.last_log_index
                == s.log.len() && args.last_log_term == last_term(s.log)
        },
        Payload::RequestVoteReply(reply) => {
            &&& reply.voter == m.from
            &&& reply.term <= w.nodes[m.from].term
            &&& reply.vote_granted ==> w.history.ballots.contains_key((reply.term, m.from))
                && w.history.ballots[(reply.term, m.from)].candidate == m.to
        },
        Payload::AppendEntries(args) => {
            &&& args.leader_id == m.from
            &&& w.history.reigns.contains_key(args.term)
            &&& w.history.reigns[args.term].leader == m.from
            &&& segment_of(w.history.reigns[args.term].log, args)
            &&& commit_ok(
                w,
                w.history.reigns[args.term].log,
                args.leader_commit as int,
                args.term,
            )
        },
        Payload::AppendEntriesReply(reply) => {
            &&& reply.follower == m.from
            &&& reply.term <= w.nodes[m.from].term
            &&& reply.success ==> acked(w.history, reply.term, m.from) >= reply.match_index
        },
    }
}

// ---- nodes --------------------------------------------------------------------

/// The node's peers are all others.
pub open spec fn placed<C>(w: World<C>, n: NodeId) -> bool {
    let s = w.nodes[n];
    &&& s.id == n
    &&& s.peers.len() >= w.ids.len() - 1
    &&& forall|p: NodeId| #[trigger] s.peers.contains(p) <==> w.ids.contains(p) && p != n
}

/// The vote a node remembers is the one it cast in its term.
pub open spec fn vote_kept<C>(w: World<C>, n: NodeId) -> bool {
    let s = w.nodes[n];
    s.voted_for == (if w.history.ballots.contains_key((s.term, n)) {
        Some(w.history.ballots[(s.term, n)].candidate)
    } else {
        None
    })
}

/// A leader's log is that of its reign, and it credits no follower with more
/// than that follower acknowledged.
pub open spec fn leads_rightly<C>(w: World<C>, n: NodeId) -> bool {
    let s = w.nodes[n];
    s.standing matches Standing::Leader { next_index, match_index } ==> {
        &&& w.history.reigns.contains_key(s.term)
        &&& w.history.reigns[s.term].leader == n
        &&& w.history.reigns[s.term].log == s.log
        &&& match_index.dom().finite()
        &&& forall|p: NodeId| #[trigger]
            match_index.contains_key(p) ==> w.ids.contains(p) && p != n && match_index[p] <= acked(
                w.history,
                s.term,
                p,
            )
    }
}

/// A candidate has voted for itself, has not won yet, and counts only votes
/// that were cast for it.
pub open spec fn runs_rightly<C>(w: World<C>, n: NodeId) -> bool {
    let s = w.nodes[n];
    s.standing is Candidate ==> {
        &&& s.term >= 1
        &&& !(w.history.reigns.contains_key(s.term) && w.history.reigns[s.term].leader == n)
        &&& forall|m: NodeId| #[trigger]
            s.votes.contains(m) ==> w.ids.contains(m) && w.history.ballots.contains_key((s.term, m))
                && w.history.ballots[(s.term, m)].candidate == n
    }
}

pub open spec fn node_ok<C>(w: World<C>, n: NodeId) -> bool {
    let s = w.nodes[n];
    &&& placed(w, n)
    &&& s.term <= w.clock
    &&& grounded(w.history, s.log)
    &&& orderly(s.log, s.term)
    &&& vote_kept(w, n)
    &&& leads_rightly(w, n)
    &&& runs_rightly(w, n)
    &&& commit_ok(w, s.log, s.commit_index as int, s.term)
    &&& commit_ok(w, s.log, s.last_applied as int, s.term)
}

/// What a node acknowledged it keeps, as long as all later leaders have it.
pub open spec fn keeps_acked<C>(w: World<C>, n: NodeId) -> bool {
    let s = w.nodes[n];
    forall|t: Term, i: int|
        #![trigger own_entry(w.history, t, i)]
        t <= s.term && i <= acked(w.history, t, n) && own_entry(w.history, t, i) && carried(
            w.history,
            t,
            s.term + 1,
            i,
        ) ==> agree(w.history.reigns[t].log, s.log, i)
}

// ---- the past -----------------------------------------------------------------

/// What the voter `m` had acknowledged before `term`, `log` has too, as long
/// as all leaders in between have it.
pub open spec fn inherits<C>(
    h: History<C>,
    term: Term,
    m: NodeId,
    log: Seq<LogEntry<C>>,
) -> bool {
    forall|t: Term, i: int|
        #![trigger own_entry(h, t, i)]
        t < term && i <= acked(h, t, m) && own_entry(h, t, i) && carried(h, t, term as int, i)
            ==> agree(h.reigns[t].log, log, i)
}

pub open spec fn ballot_ok<C>(w: World<C>, term: Term, m: NodeId) -> bool {
    let ballot = w.history.ballots[(term, m)];
    let c = w.nodes[ballot.candidate];
    &&& w.ids.contains(m)
    &&& w.ids.contains(ballot.candidate)
    &&& 1 <= term <= w.nodes[m].term
    &&& term <= c.term
    &&& grounded(w.history, ballot.log)
    &&& orderly(ballot.log, term)
    &&& c.term == term && c.standing is Candidate ==> up_to_date(
        last_term(c.log),
        c.log.len() as u64,
        ballot.log,
    )
    &&& !w.history.reigns.contains_key(term) ==> inherits(w.history, term, m, ballot.log)
}

pub open spec fn reign_ok<C>(w: World<C>, term: Term) -> bool {
    let reign = w.history.reigns[term];
    let s = w.nodes[reign.leader];
    &&& term >= 1
    &&& w.ids.contains(reign.leader)
    &&& s.term >= term
    &&& s.term == term ==> s.standing is Leader
    &&& is_majority(w, reign.voters)
    &&& forall|m: NodeId| #[trigger]
        reign.voters.contains(m) ==> w.history.ballots.contains_key((term, m))
            && w.history.ballots[(term, m)].candidate == reign.leader
    &&& grounded(w.history, reign.log)
    &&& orderly(reign.log, term)
    &&& reign.log.len() <= term + w.history.proposals
    &&& acked(w.history, term, reign.leader) == reign.log.len()
    &&& forall|m: NodeId| #[trigger]
        reign.voters.contains(m) ==> inherits(w.history, term, m, reign.log)
}

pub open spec fn ack_ok<C>(w: World<C>, term: Term, m: NodeId) -> bool {
    &&& w.ids.contains(m)
    &&& w.history.reigns.contains_key(term)
    &&& term <= w.nodes[m].term
    &&& w.history.acks[(term, m)] <= w.history.reigns[term].log.len()
}

// ---- altogether ---------------------------------------------------------------

pub open spec fn nodes_ok<C>(w: World<C>) -> bool {
    forall|n: NodeId| w.ids.contains(n) ==> #[trigger] node_ok(w, n)
}

pub open spec fn acked_kept<C>(w: World<C>) -> bool {
    forall|n: NodeId| w.ids.contains(n) ==> #[trigger] keeps_acked(w, n)
}

pub open spec fn ballots_ok<C>(w: World<C>) -> bool {
    forall|term: Term, m: NodeId|
        w.history.ballots.contains_key((term, m)) ==> #[trigger] ballot_ok(w, term, m)
}

pub open spec fn reigns_ok<C>(w: World<C>) -> bool {
    forall|term: Term| w.history.reigns.contains_key(term) ==> #[trigger] reign_ok(w, term)
}

pub open spec fn acks_ok<C>(w: World<C>) -> bool {
    forall|term: Term, m: NodeId|
        w.history.acks.contains_key((term, m)) ==> #[trigger] ack_ok(w, term, m)
}

pub open spec fn messages_ok<C>(w: World<C>) -> bool {
    forall|m: Message<C>| w.history.sent.contains(m) ==> #[trigger] message_ok(w, m)
}

/// What always holds.
pub open spec fn safe<C>(w: World<C>) -> bool {
    &&& w.ids.finite()
    &&& w.nodes.dom() == w.ids
    &&& nodes_ok(w)
    &&& acked_kept(w)
    &&& ballots_ok(w)
    &&& reigns_ok(w)
    &&& acks_ok(w)
    &&& messages_ok(w)
}

} // verus!
