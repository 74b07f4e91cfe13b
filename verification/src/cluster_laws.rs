//! What holds of a whole cluster, at every tick.
//!
//! Every call on a cluster keeps it sound (see
//! [`crate::cluster_state::sound_cluster`]), and what is sound is safe (see
//! [`crate::cluster_state::safe_cluster`]); the laws below say what that
//! means for its nodes, their logs and their state machines.

use vstd::prelude::*;

use crate::cluster_state::{
    all_applied, all_sent, cluster_proposed, cluster_ticked, committed_entries_agree, committed_on,
    committed_terms_agree, fresh_cluster, leads, machine_follows, node_stepped, nothing_lost,
    one_leader_per_term, others, safe_cluster, sound_cluster, tick_begun, world_of, ClusterState,
};
use crate::node::{Committed, NotLeaderError, RaftConfig};
use crate::node_laws::{law_commits_are_applied, law_committed_is_applied, outcome, Input};
use crate::protocol::{can_tick, commands_between, NodeState, Step};
use crate::rpc::{LogIndex, Message, NodeId};
use crate::safety::actions::lemma_clock;
use crate::safety::frame::{extends, lemma_commit_ok_bounded, lemma_commit_ok_grows};
use crate::safety::inputs::{leads_to, moved};
use crate::safety::theorems::{
    lemma_committed_agree, lemma_committed_carried, lemma_one_leader_per_term,
};
use crate::safety::world::{
    ack_ok, acked, agree, carried, committed, is_majority, keeps_acked, node_ok, own_entry, placed,
    safe, History, World,
};
use crate::sim::network::{
    joined, law_advance, queue_extended, takes_in, NetworkConfig, NetworkState,
};
use crate::state_machine::StateMachine;
use crate::storage::LogEntry;

verus! {

// ---- setting up -------------------------------------------------------------------

/// The history of a cluster in which nothing has happened yet.
pub open spec fn no_history<C>() -> History<C> {
    History {
        sent: Set::empty(),
        ballots: Map::empty(),
        reigns: Map::empty(),
        acks: Map::empty(),
        proposals: 0,
    }
}

/// The peers of a node are the other nodes, each at least once.
pub proof fn lemma_others(ids: Seq<NodeId>, id: NodeId)
    ensures
        forall|p: NodeId| #[trigger] others(ids, id).contains(p) <==> ids.contains(p) && p != id,
        others(ids, id).len() >= ids.to_set().len() - 1,
        ids.contains(id) ==> others(ids, id).len() < ids.len(),
{
    let peers = others(ids, id);
    lemma_others_one_by_one(ids, id);
    assert(peers.to_set() =~= ids.to_set().remove(id));
    peers.lemma_cardinality_of_set();
    ids.lemma_cardinality_of_set();
}

proof fn lemma_others_one_by_one(ids: Seq<NodeId>, id: NodeId)
    ensures
        forall|p: NodeId| #[trigger] others(ids, id).contains(p) <==> ids.contains(p) && p != id,
        others(ids, id).len() <= ids.len(),
        ids.contains(id) ==> others(ids, id).len() < ids.len(),
    decreases ids.len(),
{
    reveal(Seq::filter);
    if ids.len() > 0 {
        let rest = ids.drop_last();
        let before = others(rest, id);
        let peers = others(ids, id);
        lemma_others_one_by_one(rest, id);
        assert forall|p: NodeId| ids.contains(p) implies #[trigger] rest.contains(p) || p
            == ids.last() by {
            let i = choose|i: int| 0 <= i < ids.len() && ids[i] == p;
            if i < rest.len() {
                assert(rest[i] == p);
            }
        }
        assert forall|p: NodeId| #[trigger] peers.contains(p) <==> ids.contains(p) && p != id by {
            if peers.contains(p) {
                let i = choose|i: int| 0 <= i < peers.len() && peers[i] == p;
                if i < before.len() {
                    assert(before[i] == p);
                    assert(before.contains(p));
                    let j = choose|j: int| 0 <= j < rest.len() && rest[j] == p;
                    assert(ids[j] == p);
                } else {
                    assert(ids[ids.len() - 1] == p);
                }
            }
            if ids.contains(p) && p != id {
                if rest.contains(p) {
                    assert(before.contains(p));
                    let i = choose|i: int| 0 <= i < before.len() && before[i] == p;
                    assert(peers[i] == p);
                } else {
                    assert(peers[peers.len() - 1] == p);
                }
            }
        }
    }
}

/// A cluster that has just been set up is sound.
pub proof fn lemma_fresh_cluster<SM: StateMachine>(
    ids: Seq<NodeId>,
    config: RaftConfig,
    net_config: NetworkConfig,
    seed: u64,
)
    ensures
        sound_cluster::<SM>(
            fresh_cluster::<SM>(ids, config, net_config, seed),
            no_history(),
            0,
        ),
{
    let c = fresh_cluster::<SM>(ids, config, net_config, seed);
    let w = world_of(c, no_history(), 0);
    assert(c.nodes.dom() =~= ids.to_set());
    assert(c.machines.dom() =~= ids.to_set());
    ids.lemma_cardinality_of_set();
    assert forall|n: NodeId| w.ids.contains(n) implies #[trigger] node_ok(w, n) by {
        lemma_others(ids, n);
        assert(placed(w, n));
    }
}

// ---- steps ------------------------------------------------------------------------

/// What a node has applied stays in its log, whatever happens to it.
pub proof fn lemma_applied_stays<C>(
    w: World<C>,
    n: NodeId,
    result: (NodeState<C>, Step<C>),
    g: History<C>,
)
    requires
        safe(w),
        w.ids.contains(n),
        leads_to(w, n, result, g),
        w.nodes[n].last_applied <= result.0.last_applied,
    ensures
        agree(w.nodes[n].log, result.0.log, w.nodes[n].last_applied as int),
{
    let v = moved(w, n, result.0, g);
    let s = w.nodes[n];
    let t = result.0;
    assert(node_ok(w, n));
    assert(node_ok(v, n));
    let k = s.last_applied as int;
    lemma_commit_ok_bounded(w, s.log, k, s.term);
    lemma_commit_ok_grows(w, v, s.log, s.log, k, s.term, s.term);
    lemma_committed_agree(v, s.log, k, s.term, t.log, t.last_applied as int, t.term);
}

proof fn lemma_applied_in_turn<SM: StateMachine>(
    state: SM::V,
    a: Seq<Committed<SM::Command>>,
    b: Seq<Committed<SM::Command>>,
)
    ensures
        all_applied::<SM>(all_applied::<SM>(state, a), b) == all_applied::<SM>(state, a + b),
    decreases b.len(),
{
    if b.len() == 0 {
        assert(a + b =~= a);
    } else {
        lemma_applied_in_turn::<SM>(state, a, b.drop_last());
        assert((a + b).drop_last() =~= a + b.drop_last());
    }
}

proof fn lemma_commands_split<C>(log: Seq<LogEntry<C>>, from: int, mid: int, to: int)
    requires
        from <= mid <= to,
    ensures
        commands_between(log, from, to) == commands_between(log, from, mid) + commands_between(
            log,
            mid,
            to,
        ),
    decreases to - mid,
{
    if mid == to {
        assert(commands_between(log, from, to) + Seq::empty() =~= commands_between(log, from, to));
    } else {
        lemma_commands_split(log, from, mid, to - 1);
        let a = commands_between(log, from, mid);
        let b = commands_between(log, mid, to - 1);
        assert(commands_between(log, from, to) =~= a + commands_between(log, mid, to));
    }
}

proof fn lemma_commands_agree<C>(a: Seq<LogEntry<C>>, b: Seq<LogEntry<C>>, n: int)
    requires
        agree(a, b, n),
    ensures
        commands_between(a, 0, n) == commands_between(b, 0, n),
    decreases n,
{
    if n > 0 {
        lemma_commands_agree(a, b, n - 1);
        assert(a[n - 1] == b[n - 1]);
    }
}

/// A node's step keeps the cluster safe.
pub proof fn lemma_node_stepped<SM: StateMachine>(
    c: ClusterState<SM::Command, SM::V>,
    history: History<SM::Command>,
    g: History<SM::Command>,
    clock: nat,
    id: NodeId,
    input: Input<SM::Command>,
)
    requires
        safe_cluster::<SM>(c, history, clock),
        c.nodes.contains_key(id),
        leads_to(world_of(c, history, clock), id, outcome(c.nodes[id], input), g),
    ensures
        safe_cluster::<SM>(node_stepped::<SM>(c, id, outcome(c.nodes[id], input)), g, clock),
{
    let w = world_of(c, history, clock);
    let s = c.nodes[id];
    let result = outcome(s, input);
    let t = result.0;
    let d = node_stepped::<SM>(c, id, result);
    assert(d.nodes.dom() =~= c.nodes.dom());
    assert(d.machines.dom() =~= c.machines.dom());
    assert(world_of(d, g, clock) =~= moved(w, id, t, g));
    law_committed_is_applied(s, input);
    law_commits_are_applied(s, input);
    lemma_applied_stays(w, id, result, g);
    assert forall|other: NodeId| d.nodes.contains_key(other) implies #[trigger] machine_follows::<
        SM,
    >(d, other) by {
        assert(machine_follows::<SM>(c, other));
        if other == id {
            let done = s.last_applied as int;
            lemma_commands_agree(s.log, t.log, done);
            lemma_commands_split(t.log, 0, done, t.last_applied as int);
            lemma_applied_in_turn::<SM>(
                SM::initial(),
                commands_between(t.log, 0, done),
                result.1.committed,
            );
        }
    }
    assert forall|i: int|
        #![trigger d.network.queue[i]]
        0 <= i < d.network.queue.len() implies g.sent.contains(d.network.queue[i].message) by {
        assert(history.sent.contains(c.network.queue[i].message));
    }
}

/// A node's step loses nothing that was applied anywhere, and no node's term
/// falls.
pub proof fn lemma_step_loses_nothing<SM: StateMachine>(
    c: ClusterState<SM::Command, SM::V>,
    h: History<SM::Command>,
    g: History<SM::Command>,
    clock: nat,
    id: NodeId,
    input: Input<SM::Command>,
)
    requires
        safe_cluster::<SM>(c, h, clock),
        clock <= u64::MAX,
        c.nodes.contains_key(id),
        input is Tick ==> can_tick(c.nodes[id]),
        leads_to(world_of(c, h, clock), id, outcome(c.nodes[id], input), g),
    ensures
        nothing_lost(c, node_stepped::<SM>(c, id, outcome(c.nodes[id], input))),
{
    let w = world_of(c, h, clock);
    let s = c.nodes[id];
    let result = outcome(s, input);
    let d = node_stepped::<SM>(c, id, result);
    law_committed_is_applied(s, input);
    lemma_applied_stays(w, id, result, g);
    assert(d.nodes.dom() =~= c.nodes.dom());
    assert(s.term <= result.0.term);
    assert forall|other: NodeId| #![trigger d.nodes[other]] c.nodes.contains_key(other) implies {
        &&& c.nodes[other].term <= d.nodes[other].term
        &&& c.nodes[other].last_applied <= d.nodes[other].last_applied
        &&& agree(
            c.nodes[other].log,
            d.nodes[other].log,
            c.nodes[other].last_applied as int,
        )
    } by {
        if other != id {
            let t = c.nodes[other];
            assert(node_ok(w, other));
            lemma_commit_ok_bounded(w, t.log, t.last_applied as int, t.term);
        }
    }
}

/// A safe cluster lacks nothing that it had.
pub proof fn lemma_nothing_lost_at_rest<SM: StateMachine>(
    c: ClusterState<SM::Command, SM::V>,
    history: History<SM::Command>,
    clock: nat,
)
    requires
        safe_cluster::<SM>(c, history, clock),
    ensures
        nothing_lost(c, c),
{
    let w = world_of(c, history, clock);
    assert forall|id: NodeId| c.nodes.contains_key(id) implies (#[trigger] c.nodes[id]).last_applied
        <= c.nodes[id].log.len() by {
        let s = c.nodes[id];
        assert(node_ok(w, id));
        lemma_commit_ok_bounded(w, s.log, s.last_applied as int, s.term);
    }
}

/// Losing nothing twice in a row is losing nothing.
pub proof fn lemma_nothing_lost_twice<C, M>(
    a: ClusterState<C, M>,
    b: ClusterState<C, M>,
    c: ClusterState<C, M>,
)
    requires
        nothing_lost(a, b),
        nothing_lost(b, c),
    ensures
        nothing_lost(a, c),
{
    assert forall|id: NodeId| #![trigger c.nodes[id]] a.nodes.contains_key(id) implies {
        &&& a.nodes[id].term <= c.nodes[id].term
        &&& a.nodes[id].last_applied <= c.nodes[id].last_applied
        &&& agree(a.nodes[id].log, c.nodes[id].log, a.nodes[id].last_applied as int)
    } by {
        let x = a.nodes[id];
        let y = b.nodes[id];
        let z = c.nodes[id];
        assert(agree(y.log, z.log, y.last_applied as int));
        assert forall|j: int|
            #![trigger x.log[j]]
            #![trigger z.log[j]]
            0 <= j < x.last_applied implies x.log[j] == z.log[j] by {
            assert(x.log[j] == y.log[j]);
            assert(y.log[j] == z.log[j]);
        }
    }
}

// ---- what a tick keeps ------------------------------------------------------------

/// Whatever waits in the network was sent, also after one more message.
pub proof fn lemma_queue_sent<C>(
    s: NetworkState<C>,
    t: NetworkState<C>,
    message: Message<C>,
    h: History<C>,
)
    requires
        queue_extended(s, t, message),
        h.sent.contains(message),
        forall|i: int|
            #![trigger s.queue[i]]
            0 <= i < s.queue.len() ==> h.sent.contains(s.queue[i].message),
    ensures
        forall|i: int|
            #![trigger t.queue[i]]
            0 <= i < t.queue.len() ==> h.sent.contains(t.queue[i].message),
{
    assert forall|i: int| #![trigger t.queue[i]] 0 <= i < t.queue.len() implies h.sent.contains(
        t.queue[i].message,
    ) by {
        if takes_in(s, message) {
            let (at, deliver_at) = choose|at: int, deliver_at: u64|
                joined(s, t, message, at, deliver_at);
            if i < at {
                assert(t.queue[i] == s.queue[i]);
            } else if i > at {
                assert(t.queue[i] == s.queue[i - 1]);
            }
        }
    }
}

/// What extends an extension extends.
pub proof fn lemma_extends_twice<C>(a: History<C>, b: History<C>, c: History<C>)
    requires
        extends(a, b),
        extends(b, c),
    ensures
        extends(a, c),
{
}

/// A cluster is sound when a tick begins, and what it hears was sent.
pub proof fn lemma_tick_begun<SM: StateMachine>(
    c: ClusterState<SM::Command, SM::V>,
    h: History<SM::Command>,
    clock: nat,
)
    requires
        sound_cluster::<SM>(c, h, clock),
        c.tick_count < u64::MAX,
    ensures
        sound_cluster::<SM>(tick_begun(c).0.cluster, h, clock),
        all_sent(h, tick_begun(c).1),
{
    let d = tick_begun(c).0.cluster;
    law_advance(c.network);
    assert(world_of(d, h, clock) == world_of(c, h, clock));
    assert forall|id: NodeId| d.nodes.contains_key(id) implies #[trigger] machine_follows::<SM>(
        d,
        id,
    ) by {
        assert(machine_follows::<SM>(c, id));
    }
    assert forall|i: int|
        #![trigger d.network.queue[i]]
        0 <= i < d.network.queue.len() implies h.sent.contains(
        d.network.queue[i].message,
    ) by {
        let flight = d.network.queue[i];
        assert(c.network.queue.contains(flight));
        let j = choose|j: int| 0 <= j < c.network.queue.len() && c.network.queue[j] == flight;
        assert(h.sent.contains(c.network.queue[j].message));
    }
}

/// A cluster stays safe as time passes.
pub proof fn lemma_later<SM: StateMachine>(
    c: ClusterState<SM::Command, SM::V>,
    h: History<SM::Command>,
    earlier: nat,
    clock: nat,
)
    requires
        safe_cluster::<SM>(c, h, earlier),
        earlier <= clock,
    ensures
        safe_cluster::<SM>(c, h, clock),
        forall|id: NodeId|
            c.nodes.contains_key(id) ==> (#[trigger] c.nodes[id]).term <= earlier,
{
    let w = world_of(c, h, earlier);
    lemma_clock(w, clock);
    assert(world_of(c, h, clock) == World { clock, ..w });
    assert forall|id: NodeId| c.nodes.contains_key(id) implies (#[trigger] c.nodes[id]).term
        <= earlier by {
        assert(node_ok(w, id));
    }
}

/// Partitions and disconnections leave a cluster sound.
pub proof fn lemma_network_changed<SM: StateMachine>(
    c: ClusterState<SM::Command, SM::V>,
    history: History<SM::Command>,
    clock: nat,
    partition: Option<Seq<Seq<NodeId>>>,
    disconnected: Set<NodeId>,
)
    requires
        sound_cluster::<SM>(c, history, clock),
    ensures
        sound_cluster::<SM>(
            ClusterState {
                network: NetworkState { partition, disconnected, ..c.network },
                ..c
            },
            history,
            clock,
        ),
{
    let d = ClusterState { network: NetworkState { partition, disconnected, ..c.network }, ..c };
    assert(world_of(d, history, clock) == world_of(c, history, clock));
    assert forall|id: NodeId| d.nodes.contains_key(id) implies #[trigger] machine_follows::<SM>(
        d,
        id,
    ) by {
        assert(machine_follows::<SM>(c, id));
    }
}

// ---- laws -------------------------------------------------------------------------

/// Election safety: at most one leader per term, ever.
pub proof fn law_at_most_one_leader_per_term<SM: StateMachine>(
    c: ClusterState<SM::Command, SM::V>,
    history: History<SM::Command>,
    clock: nat,
)
    requires
        safe_cluster::<SM>(c, history, clock),
    ensures
        one_leader_per_term(c),
{
    assert forall|a: NodeId, b: NodeId|
        #![trigger leads(c, a), leads(c, b)]
        leads(c, a) && leads(c, b) && c.nodes[a].term == c.nodes[b].term implies a == b by {
        lemma_one_leader_per_term(world_of(c, history, clock), a, b);
    }
}

/// State machine safety: an entry committed on two nodes is the same on both.
pub proof fn law_committed_entries_agree<SM: StateMachine>(
    c: ClusterState<SM::Command, SM::V>,
    history: History<SM::Command>,
    clock: nat,
)
    requires
        safe_cluster::<SM>(c, history, clock),
    ensures
        committed_entries_agree(c),
        committed_terms_agree(c),
{
    let w = world_of(c, history, clock);
    assert forall|a: NodeId, b: NodeId, k: int|
        #![trigger committed_on(c, a, k), committed_on(c, b, k)]
        committed_on(c, a, k) && committed_on(c, b, k) implies c.nodes[a].log[k - 1]
        == c.nodes[b].log[k - 1] by {
        let s = c.nodes[a];
        let t = c.nodes[b];
        assert(node_ok(w, a));
        assert(node_ok(w, b));
        lemma_committed_agree(
            w,
            s.log,
            s.commit_index as int,
            s.term,
            t.log,
            t.commit_index as int,
            t.term,
        );
    }
}

/// Whatever is committed stands in the log.
pub proof fn law_committed_entries_are_held<SM: StateMachine>(
    c: ClusterState<SM::Command, SM::V>,
    history: History<SM::Command>,
    clock: nat,
    id: NodeId,
)
    requires
        safe_cluster::<SM>(c, history, clock),
        c.nodes.contains_key(id),
    ensures
        c.nodes[id].commit_index <= c.nodes[id].last_applied <= c.nodes[id].log.len(),
{
    let w = world_of(c, history, clock);
    let s = c.nodes[id];
    assert(node_ok(w, id));
    lemma_commit_ok_bounded(w, s.log, s.last_applied as int, s.term);
}

/// Every committed entry stands in the logs of a majority: no minority can
/// commit anything, and what is committed is never lost.
pub proof fn law_committed_entries_are_on_a_majority<SM: StateMachine>(
    c: ClusterState<SM::Command, SM::V>,
    history: History<SM::Command>,
    clock: nat,
    id: NodeId,
) -> (holders: Set<NodeId>)
    requires
        safe_cluster::<SM>(c, history, clock),
        c.nodes.contains_key(id),
        c.nodes[id].commit_index > 0,
    ensures
        holders.subset_of(c.nodes.dom()),
        holders.len() > c.nodes.dom().len() / 2,
        forall|m: NodeId|
            holders.contains(m) ==> agree(
                c.nodes[id].log,
                (#[trigger] c.nodes[m]).log,
                c.nodes[id].commit_index as int,
            ),
{
    let w = world_of(c, history, clock);
    let s = c.nodes[id];
    let k = s.commit_index as int;
    let h = history;
    assert(node_ok(w, id));
    let (t, i) = choose|t: u64, i: int| #[trigger]
        committed(w, t, i) && t <= s.term && 0 <= k <= i && agree(s.log, h.reigns[t].log, k);
    let holders = choose|nodes: Set<NodeId>| #[trigger]
        is_majority(w, nodes) && forall|m: NodeId|
            nodes.contains(m) ==> #[trigger] acked(h, t, m) >= i;
    assert forall|m: NodeId| holders.contains(m) implies agree(
        s.log,
        (#[trigger] c.nodes[m]).log,
        k,
    ) by {
        assert(acked(h, t, m) >= i);
        assert(w.ids.contains(m));
        assert(keeps_acked(w, m));
        assert(ack_ok(w, t, m)) by {
            assert(h.acks.contains_key((t, m)));
        }
        assert(own_entry(h, t, i));
        assert(carried(h, t, c.nodes[m].term + 1, i)) by {
            assert forall|later: u64|
                #![trigger h.reigns.contains_key(later)]
                t < later < c.nodes[m].term + 1 && h.reigns.contains_key(later) implies agree(
                h.reigns[t].log,
                h.reigns[later].log,
                i,
            ) by {
                lemma_committed_carried(w, t, i, later);
            }
        }
        let r = h.reigns[t].log;
        assert(agree(r, c.nodes[m].log, i));
        assert forall|j: int|
            #![trigger s.log[j]]
            #![trigger c.nodes[m].log[j]]
            0 <= j < k implies s.log[j] == c.nodes[m].log[j] by {
            assert(s.log[j] == r[j]);
            assert(r[j] == c.nodes[m].log[j]);
        }
    }
    holders
}

/// Leader completeness: a leader whose term is at least that of a node has
/// every entry that the node has committed.
pub proof fn law_leaders_have_committed_entries<SM: StateMachine>(
    c: ClusterState<SM::Command, SM::V>,
    history: History<SM::Command>,
    clock: nat,
    id: NodeId,
    leader: NodeId,
)
    requires
        safe_cluster::<SM>(c, history, clock),
        c.nodes.contains_key(id),
        leads(c, leader),
        c.nodes[leader].term >= c.nodes[id].term,
    ensures
        agree(c.nodes[id].log, c.nodes[leader].log, c.nodes[id].commit_index as int),
{
    let w = world_of(c, history, clock);
    let s = c.nodes[id];
    let l = c.nodes[leader];
    let h = history;
    let k = s.commit_index as int;
    assert(node_ok(w, id));
    assert(node_ok(w, leader));
    if k > 0 {
        let (t, i) = choose|t: u64, i: int| #[trigger]
            committed(w, t, i) && t <= s.term && 0 <= k <= i && agree(s.log, h.reigns[t].log, k);
        if t < l.term {
            lemma_committed_carried(w, t, i, l.term);
        }
        let r = h.reigns[t].log;
        assert forall|j: int| #![trigger s.log[j]] #![trigger l.log[j]] 0 <= j < k implies s.log[j]
            == l.log[j] by {
            assert(s.log[j] == r[j]);
            assert(r[j] == l.log[j]);
        }
    }
}

/// Log matching: if two logs hold entries of the same term at an index, they
/// are identical up to there.
pub proof fn law_log_matching<SM: StateMachine>(
    c: ClusterState<SM::Command, SM::V>,
    history: History<SM::Command>,
    clock: nat,
    a: NodeId,
    b: NodeId,
    k: int,
)
    requires
        safe_cluster::<SM>(c, history, clock),
        c.nodes.contains_key(a),
        c.nodes.contains_key(b),
        0 <= k < c.nodes[a].log.len(),
        k < c.nodes[b].log.len(),
        c.nodes[a].log[k].term == c.nodes[b].log[k].term,
    ensures
        agree(c.nodes[a].log, c.nodes[b].log, k + 1),
{
    let w = world_of(c, history, clock);
    let x = c.nodes[a].log;
    let y = c.nodes[b].log;
    assert(node_ok(w, a));
    assert(node_ok(w, b));
    let r = history.reigns[x[k].term].log;
    assert(agree(x, r, k + 1));
    assert(agree(y, r, k + 1));
    assert forall|j: int| #![trigger x[j]] #![trigger y[j]] 0 <= j < k + 1 implies x[j] == y[j] by {
        assert(x[j] == r[j]);
        assert(y[j] == r[j]);
    }
}

/// Along every log terms never decrease, and every entry carries its index.
pub proof fn law_logs_are_orderly<SM: StateMachine>(
    c: ClusterState<SM::Command, SM::V>,
    history: History<SM::Command>,
    clock: nat,
    id: NodeId,
    i: int,
    j: int,
)
    requires
        safe_cluster::<SM>(c, history, clock),
        c.nodes.contains_key(id),
        0 <= i <= j < c.nodes[id].log.len(),
    ensures
        1 <= c.nodes[id].log[i].term <= c.nodes[id].log[j].term <= c.nodes[id].term,
        c.nodes[id].log[i].index == i + 1,
{
    assert(node_ok(world_of(c, history, clock), id));
}

/// Replicas that have applied equally far are in the same state.
pub proof fn law_machines_agree<SM: StateMachine>(
    c: ClusterState<SM::Command, SM::V>,
    history: History<SM::Command>,
    clock: nat,
    a: NodeId,
    b: NodeId,
)
    requires
        safe_cluster::<SM>(c, history, clock),
        c.nodes.contains_key(a),
        c.nodes.contains_key(b),
        c.nodes[a].last_applied == c.nodes[b].last_applied,
    ensures
        c.machines[a] == c.machines[b],
{
    let w = world_of(c, history, clock);
    let s = c.nodes[a];
    let t = c.nodes[b];
    assert(node_ok(w, a));
    assert(node_ok(w, b));
    assert(machine_follows::<SM>(c, a));
    assert(machine_follows::<SM>(c, b));
    let n = s.last_applied as int;
    lemma_committed_agree(w, s.log, n, s.term, t.log, n, t.term);
    lemma_commands_agree(s.log, t.log, n);
}

/// A replica that has applied further has applied the same commands first.
pub proof fn law_machines_apply_the_same_sequence<SM: StateMachine>(
    c: ClusterState<SM::Command, SM::V>,
    history: History<SM::Command>,
    clock: nat,
    a: NodeId,
    b: NodeId,
)
    requires
        safe_cluster::<SM>(c, history, clock),
        c.nodes.contains_key(a),
        c.nodes.contains_key(b),
        c.nodes[a].last_applied <= c.nodes[b].last_applied,
    ensures
        c.machines[b] == all_applied::<SM>(
            c.machines[a],
            commands_between(
                c.nodes[b].log,
                c.nodes[a].last_applied as int,
                c.nodes[b].last_applied as int,
            ),
        ),
{
    let w = world_of(c, history, clock);
    let s = c.nodes[a];
    let t = c.nodes[b];
    assert(node_ok(w, a));
    assert(node_ok(w, b));
    assert(machine_follows::<SM>(c, a));
    assert(machine_follows::<SM>(c, b));
    let n = s.last_applied as int;
    let m = t.last_applied as int;
    lemma_committed_agree(w, s.log, n, s.term, t.log, m, t.term);
    lemma_commands_agree(s.log, t.log, n);
    lemma_commands_split(t.log, 0, n, m);
    lemma_applied_in_turn::<SM>(
        SM::initial(),
        commands_between(t.log, 0, n),
        commands_between(t.log, n, m),
    );
}

// ---- reproducibility --------------------------------------------------------------

/// Anything a cluster is told.
pub enum Action<C> {
    Tick,
    Propose(NodeId, C),
    Disconnect(NodeId),
    Reconnect(NodeId),
    Partition(Seq<Seq<NodeId>>),
    HealPartition,
}

/// What an action makes of a cluster, and what a proposal is answered.
/// Proposals are made to nodes that exist.
pub open spec fn acted<SM: StateMachine>(
    c: ClusterState<SM::Command, SM::V>,
    action: Action<SM::Command>,
) -> (ClusterState<SM::Command, SM::V>, Option<Result<LogIndex, NotLeaderError>>) {
    let network = c.network;
    match action {
        Action::Tick => (cluster_ticked::<SM>(c), None),
        Action::Propose(id, command) => if leads(c, id) {
            (
                cluster_proposed::<SM>(c, id, command),
                Some(Ok((c.nodes[id].log.len() + 1) as u64)),
            )
        } else {
            (c, Some(Err(NotLeaderError { leader_hint: c.nodes[id].leader_id })))
        },
        Action::Disconnect(id) => (
            ClusterState {
                network: NetworkState { disconnected: network.disconnected.insert(id), ..network },
                ..c
            },
            None,
        ),
        Action::Reconnect(id) => (
            ClusterState {
                network: NetworkState { disconnected: network.disconnected.remove(id), ..network },
                ..c
            },
            None,
        ),
        Action::Partition(groups) => (
            ClusterState {
                network: NetworkState { partition: Some(groups), ..network },
                ..c
            },
            None,
        ),
        Action::HealPartition => (
            ClusterState { network: NetworkState { partition: None, ..network }, ..c },
            None,
        ),
    }
}

/// What a series of actions makes of a cluster, and the answers.
pub open spec fn staged<SM: StateMachine>(
    c: ClusterState<SM::Command, SM::V>,
    actions: Seq<Action<SM::Command>>,
) -> (ClusterState<SM::Command, SM::V>, Seq<Option<Result<LogIndex, NotLeaderError>>>)
    decreases actions.len(),
{
    if actions.len() == 0 {
        (c, Seq::empty())
    } else {
        let (d, answers) = staged::<SM>(c, actions.drop_last());
        let (e, answer) = acted::<SM>(d, actions.last());
        (e, answers.push(answer))
    }
}

/// Given the same ids, configuration and seed, every run is the same: two
/// clusters that are told the same give the same answers and stay equal, node
/// by node, machine by machine and message by message, however the two series
/// go on afterwards.
pub proof fn law_same_seed_same_run<SM: StateMachine>(
    ids: Seq<NodeId>,
    config: RaftConfig,
    net_config: NetworkConfig,
    seed: u64,
    a: Seq<Action<SM::Command>>,
    b: Seq<Action<SM::Command>>,
    n: int,
)
    requires
        0 <= n <= a.len(),
        n <= b.len(),
        a.take(n) == b.take(n),
    ensures
        staged::<SM>(fresh_cluster::<SM>(ids, config, net_config, seed), a).1.len() == a.len(),
        staged::<SM>(fresh_cluster::<SM>(ids, config, net_config, seed), a).1.take(n)
            == staged::<SM>(fresh_cluster::<SM>(ids, config, net_config, seed), b).1.take(n),
        staged::<SM>(fresh_cluster::<SM>(ids, config, net_config, seed), a.take(n)).0
            == staged::<SM>(fresh_cluster::<SM>(ids, config, net_config, seed), b.take(n)).0,
{
    let c = fresh_cluster::<SM>(ids, config, net_config, seed);
    lemma_staged_so_far::<SM>(c, a, n);
    lemma_staged_so_far::<SM>(c, b, n);
}

proof fn lemma_staged_so_far<SM: StateMachine>(
    c: ClusterState<SM::Command, SM::V>,
    actions: Seq<Action<SM::Command>>,
    n: int,
)
    requires
        0 <= n <= actions.len(),
    ensures
        staged::<SM>(c, actions).1.len() == actions.len(),
        staged::<SM>(c, actions).1.take(n) == staged::<SM>(c, actions.take(n)).1,
    decreases actions.len(),
{
    if n == actions.len() {
        assert(actions.take(n) =~= actions);
        if n > 0 {
            lemma_staged_so_far::<SM>(c, actions.drop_last(), n - 1);
        }
        assert(staged::<SM>(c, actions).1.take(n) =~= staged::<SM>(c, actions).1);
    } else {
        let rest = actions.drop_last();
        lemma_staged_so_far::<SM>(c, rest, n);
        assert(rest.take(n) =~= actions.take(n));
        assert(staged::<SM>(c, actions).1.take(n) =~= staged::<SM>(c, rest).1.take(n));
    }
}

} // verus!
