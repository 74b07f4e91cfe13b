//! What follows for a safe world: the guarantees that Raft exists for.

use vstd::prelude::*;

use crate::quorum::lemma_majorities_intersect;
use crate::rpc::{NodeId, Term};
use crate::safety::world::{
    acked, agree, carried, commit_ok, committed, inherits, is_majority, node_ok, own_entry,
    reign_ok, safe, World,
};
use crate::storage::LogEntry;

verus! {

/// Election safety: at most one leader per term.
pub proof fn lemma_one_leader_per_term<C>(w: World<C>, a: NodeId, b: NodeId)
    requires
        safe(w),
        w.ids.contains(a),
        w.ids.contains(b),
        w.nodes[a].standing is Leader,
        w.nodes[b].standing is Leader,
        w.nodes[a].term == w.nodes[b].term,
    ensures
        a == b,
{
    assert(node_ok(w, a));
    assert(node_ok(w, b));
}

/// Leader completeness: what the leader of a term may commit, every leader of
/// a later term has.
pub proof fn lemma_committed_carried<C>(w: World<C>, term: Term, i: int, later: Term)
    requires
        safe(w),
        committed(w, term, i),
        term < later,
        w.history.reigns.contains_key(later),
    ensures
        agree(w.history.reigns[term].log, w.history.reigns[later].log, i),
    decreases later,
{
    let h = w.history;
    assert(carried(h, term, later as int, i)) by {
        assert forall|t: Term|
            #![trigger h.reigns.contains_key(t)]
            term < t < later && h.reigns.contains_key(t) implies agree(
            h.reigns[term].log,
            h.reigns[t].log,
            i,
        ) by {
            lemma_committed_carried(w, term, i, t);
        }
    }
    let nodes = choose|nodes: Set<NodeId>| #[trigger]
        is_majority(w, nodes) && forall|m: NodeId|
            nodes.contains(m) ==> #[trigger] acked(h, term, m) >= i;
    assert(reign_ok(w, later));
    let voters = h.reigns[later].voters;
    let m = lemma_majorities_intersect(w.ids, nodes, voters);
    assert(acked(h, term, m) >= i);
    assert(inherits(h, later, m, h.reigns[later].log));
    assert(own_entry(h, term, i));
}

/// Two logs whose first `j` and `k` entries are committed agree as far as
/// both go.
pub proof fn lemma_committed_agree<C>(
    w: World<C>,
    a: Seq<LogEntry<C>>,
    j: int,
    s: Term,
    b: Seq<LogEntry<C>>,
    k: int,
    t: Term,
)
    requires
        safe(w),
        0 <= j,
        0 <= k,
        commit_ok(w, a, j, s),
        commit_ok(w, b, k, t),
    ensures
        j <= a.len(),
        k <= b.len(),
        agree(
            a,
            b,
            if j < k {
                j
            } else {
                k
            },
        ),
{
    if j != 0 && k != 0 {
        let (t1, i1) = choose|t1: Term, i1: int| #[trigger]
            committed(w, t1, i1) && t1 <= s && 0 <= j <= i1 && agree(
                a,
                w.history.reigns[t1].log,
                j,
            );
        let (t2, i2) = choose|t2: Term, i2: int| #[trigger]
            committed(w, t2, i2) && t2 <= t && 0 <= k <= i2 && agree(
                b,
                w.history.reigns[t2].log,
                k,
            );
        if t1 < t2 {
            lemma_committed_carried(w, t1, i1, t2);
        } else if t2 < t1 {
            lemma_committed_carried(w, t2, i2, t1);
        }
        let x = w.history.reigns[t1].log;
        let y = w.history.reigns[t2].log;
        let n = if j < k {
            j
        } else {
            k
        };
        assert forall|p: int| #![trigger a[p]] #![trigger b[p]] 0 <= p < n implies a[p] == b[p] by {
            assert(a[p] == x[p]);
            assert(b[p] == y[p]);
            assert(x[p] == y[p]);
        }
    }
}

} // verus!
