//! What a simulated cluster does, as functions of its state.
//!
//! [`ClusterState`] is the view of a [`crate::cluster::Cluster`]: its nodes,
//! their state machines, the network between them and the number of ticks.
//! The functions below say what each call makes of it.

use vstd::prelude::*;

use crate::node::{Committed, RaftConfig};
use crate::protocol::{commands_between, fresh_node, proposed, received, ticked, NodeState, Step};
use crate::random::seeded_generator;
use crate::rpc::{LogIndex, Message, NodeId, Term};
use crate::safety::world::{agree, safe, History, World};
use crate::sim::network::{
    advanced, all_dispatched, fresh_network, longest_latency, sound_network, NetworkConfig,
    NetworkState,
};
use crate::state_machine::StateMachine;
use crate::storage::LogEntry;

verus! {

#[verifier::ext_equal]
#[verifier::reject_recursive_types(C)]
#[verifier::reject_recursive_types(M)]
pub struct ClusterState<C, M> {
    pub nodes: Map<NodeId, NodeState<C>>,
    pub machines: Map<NodeId, M>,
    pub network: NetworkState<C>,
    pub tick_count: u64,
}

/// A cluster in the middle of a tick, with the messages its nodes want sent.
#[verifier::ext_equal]
#[verifier::reject_recursive_types(C)]
#[verifier::reject_recursive_types(M)]
pub struct Round<C, M> {
    pub cluster: ClusterState<C, M>,
    pub outgoing: Seq<Message<C>>,
}

// ---- the order of the nodes -------------------------------------------------------

/// `order` lists the ids, each once, in ascending order.
pub open spec fn is_order_of(order: Seq<NodeId>, ids: Set<NodeId>) -> bool {
    &&& forall|i: int, j: int|
        #![trigger order[i], order[j]]
        0 <= i < j < order.len() ==> order[i] < order[j]
    &&& forall|id: NodeId| #[trigger] order.contains(id) <==> ids.contains(id)
}

/// The ids in ascending order.
pub open spec fn id_order(ids: Set<NodeId>) -> Seq<NodeId> {
    choose|order: Seq<NodeId>| is_order_of(order, ids)
}

proof fn lemma_order_unique(a: Seq<NodeId>, b: Seq<NodeId>, ids: Set<NodeId>)
    requires
        is_order_of(a, ids),
        is_order_of(b, ids),
    ensures
        a == b,
    decreases a.len(),
{
    if a.len() == 0 {
        if b.len() > 0 {
            assert(b.contains(b[0]));
            assert(a.contains(b[0]));
        }
        assert(a =~= b);
    } else {
        let x = a.last();
        assert(a[a.len() - 1] == x);
        assert(a.contains(x));
        assert(b.contains(x));
        let y = b.last();
        assert(b[b.len() - 1] == y);
        assert(b.contains(y));
        assert(a.contains(y));
        let i = choose|i: int| 0 <= i < a.len() && a[i] == y;
        let j = choose|j: int| 0 <= j < b.len() && b[j] == x;
        assert(x == y) by {
            assert(i == a.len() - 1 || a[i] < a[a.len() - 1]);
            assert(j == b.len() - 1 || b[j] < b[b.len() - 1]);
        }
        let rest = ids.remove(x);
        let c = a.drop_last();
        let d = b.drop_last();
        lemma_order_drop_last(a, ids);
        lemma_order_drop_last(b, ids);
        lemma_order_unique(c, d, rest);
        assert(a =~= c.push(x));
        assert(b =~= d.push(x));
    }
}

proof fn lemma_order_drop_last(order: Seq<NodeId>, ids: Set<NodeId>)
    requires
        is_order_of(order, ids),
        order.len() > 0,
    ensures
        is_order_of(order.drop_last(), ids.remove(order.last())),
{
    let rest = order.drop_last();
    let last = order.last();
    assert(order[order.len() - 1] == last);
    assert forall|i: int, j: int|
        #![trigger rest[i], rest[j]]
        0 <= i < j < rest.len() implies rest[i] < rest[j] by {
        assert(order[i] < order[j]);
    }
    assert forall|id: NodeId| #[trigger] rest.contains(id) <==> ids.remove(last).contains(id) by {
        if rest.contains(id) {
            let i = choose|i: int| 0 <= i < rest.len() && rest[i] == id;
            assert(order[i] == id);
            assert(order.contains(id));
            assert(order[i] < order[order.len() - 1]);
        }
        if ids.contains(id) && id != last {
            assert(order.contains(id));
            let i = choose|i: int| 0 <= i < order.len() && order[i] == id;
            assert(rest[i] == id);
        }
    }
}

/// The order found is the one that the model names.
pub proof fn lemma_order_is(order: Seq<NodeId>, ids: Set<NodeId>)
    requires
        is_order_of(order, ids),
    ensures
        id_order(ids) == order,
{
    lemma_order_unique(order, id_order(ids), ids);
}

/// Some id of a set is the highest.
proof fn lemma_highest(ids: Set<NodeId>) -> (highest: NodeId)
    requires
        ids.finite(),
        ids.len() > 0,
    ensures
        ids.contains(highest),
        forall|id: NodeId| #[trigger] ids.contains(id) ==> id <= highest,
    decreases ids.len(),
{
    let a = ids.choose();
    let rest = ids.remove(a);
    if rest.len() == 0 {
        assert forall|id: NodeId| #[trigger] ids.contains(id) implies id <= a by {
            if id != a {
                assert(rest.contains(id));
            }
        }
        a
    } else {
        let b = lemma_highest(rest);
        assert forall|id: NodeId| #[trigger] ids.contains(id) implies id <= a || id <= b by {
            if id != a {
                assert(rest.contains(id));
            }
        }
        if a < b {
            b
        } else {
            a
        }
    }
}

/// Every set of ids can be put in order.
pub proof fn lemma_order_exists(ids: Set<NodeId>)
    requires
        ids.finite(),
    ensures
        is_order_of(id_order(ids), ids),
    decreases ids.len(),
{
    if ids.len() == 0 {
        assert(is_order_of(Seq::<NodeId>::empty(), ids));
    } else {
        let highest = lemma_highest(ids);
        let rest = ids.remove(highest);
        lemma_order_exists(rest);
        let before = id_order(rest);
        let order = before.push(highest);
        assert forall|i: int, j: int|
            #![trigger order[i], order[j]]
            0 <= i < j < order.len() implies order[i] < order[j] by {
            if j == before.len() {
                assert(before.contains(before[i]));
                assert(rest.contains(before[i]));
            } else {
                assert(before[i] < before[j]);
            }
        }
        assert forall|id: NodeId| #[trigger] order.contains(id) <==> ids.contains(id) by {
            if order.contains(id) {
                let i = choose|i: int| 0 <= i < order.len() && order[i] == id;
                if i < before.len() {
                    assert(before.contains(before[i]));
                }
            }
            if ids.contains(id) {
                if id == highest {
                    assert(order[before.len() as int] == id);
                } else {
                    assert(before.contains(id));
                    let i = choose|i: int| 0 <= i < before.len() && before[i] == id;
                    assert(order[i] == id);
                }
            }
        }
        assert(is_order_of(order, ids));
    }
}

// ---- setting up -------------------------------------------------------------------

/// The ids other than `id`, in the order given.
pub open spec fn others(ids: Seq<NodeId>, id: NodeId) -> Seq<NodeId> {
    ids.filter(|p: NodeId| p != id)
}

/// Distinct-but-deterministic per-node seed: mixed with a large odd constant
/// so nearby ids don't produce correlated streams.
pub open spec fn node_seed(seed: u64, id: NodeId) -> u64 {
    seed.wrapping_add(id.wrapping_mul(0x9E3779B97F4A7C15))
}

/// A cluster that has just been set up.
pub open spec fn fresh_cluster<SM: StateMachine>(
    ids: Seq<NodeId>,
    config: RaftConfig,
    net_config: NetworkConfig,
    seed: u64,
) -> ClusterState<SM::Command, SM::V> {
    ClusterState {
        nodes: Map::new(
            |id: NodeId| ids.contains(id),
            |id: NodeId|
                fresh_node(
                    id,
                    others(ids, id),
                    0,
                    None,
                    Seq::<LogEntry<SM::Command>>::empty(),
                    seeded_generator(node_seed(seed, id)),
                    config,
                ),
        ),
        machines: Map::new(|id: NodeId| ids.contains(id), |id: NodeId| SM::initial()),
        network: fresh_network(net_config, seed ^ 0xA5A5_A5A5_A5A5_A5A5),
        tick_count: 0,
    }
}

// ---- a tick -----------------------------------------------------------------------

/// A state machine after commands were applied to it, in order.
pub open spec fn all_applied<SM: StateMachine>(
    state: SM::V,
    committed: Seq<Committed<SM::Command>>,
) -> SM::V
    decreases committed.len(),
{
    if committed.len() == 0 {
        state
    } else {
        SM::after(all_applied::<SM>(state, committed.drop_last()), committed.last().command)
    }
}

/// A node took a step: what it sends goes out, what it committed is applied.
pub open spec fn node_stepped<SM: StateMachine>(
    c: ClusterState<SM::Command, SM::V>,
    id: NodeId,
    result: (NodeState<SM::Command>, Step<SM::Command>),
) -> ClusterState<SM::Command, SM::V> {
    ClusterState {
        nodes: c.nodes.insert(id, result.0),
        machines: c.machines.insert(
            id,
            all_applied::<SM>(c.machines[id], result.1.committed),
        ),
        ..c
    }
}

/// A message reaches its addressee, if there is such a node.
pub open spec fn delivered<SM: StateMachine>(
    r: Round<SM::Command, SM::V>,
    message: Message<SM::Command>,
) -> Round<SM::Command, SM::V> {
    let id = message.to;
    if r.cluster.nodes.contains_key(id) {
        let result = received(r.cluster.nodes[id], message);
        Round {
            cluster: node_stepped::<SM>(r.cluster, id, result),
            outgoing: r.outgoing + result.1.effects,
        }
    } else {
        r
    }
}

pub open spec fn all_delivered<SM: StateMachine>(
    r: Round<SM::Command, SM::V>,
    due: Seq<Message<SM::Command>>,
) -> Round<SM::Command, SM::V>
    decreases due.len(),
{
    if due.len() == 0 {
        r
    } else {
        delivered::<SM>(all_delivered::<SM>(r, due.drop_last()), due.last())
    }
}

/// The timers of one node tick.
pub open spec fn node_ticked<SM: StateMachine>(
    r: Round<SM::Command, SM::V>,
    id: NodeId,
) -> Round<SM::Command, SM::V> {
    let result = ticked(r.cluster.nodes[id]);
    Round {
        cluster: node_stepped::<SM>(r.cluster, id, result),
        outgoing: r.outgoing + result.1.effects,
    }
}

pub open spec fn all_ticked<SM: StateMachine>(
    r: Round<SM::Command, SM::V>,
    ids: Seq<NodeId>,
) -> Round<SM::Command, SM::V>
    decreases ids.len(),
{
    if ids.len() == 0 {
        r
    } else {
        node_ticked::<SM>(all_ticked::<SM>(r, ids.drop_last()), ids.last())
    }
}

/// The start of a tick: time moves on, and the network hands out what is due.
pub open spec fn tick_begun<C, M>(c: ClusterState<C, M>) -> (Round<C, M>, Seq<Message<C>>) {
    let (network, due) = advanced(c.network);
    (
        Round {
            cluster: ClusterState { network, tick_count: (c.tick_count + 1) as u64, ..c },
            outgoing: Seq::empty(),
        },
        due,
    )
}

/// The messages that wait to go out are handed to the network.
pub open spec fn round_closed<C, M>(r: Round<C, M>) -> ClusterState<C, M> {
    ClusterState { network: all_dispatched(r.cluster.network, r.outgoing), ..r.cluster }
}

/// One tick: messages that are due are delivered, then every node's timers
/// tick, in the order of the ids, then whatever that produced is sent.
pub open spec fn cluster_ticked<SM: StateMachine>(
    c: ClusterState<SM::Command, SM::V>,
) -> ClusterState<SM::Command, SM::V> {
    let (begun, due) = tick_begun(c);
    let heard = all_delivered::<SM>(begun, due);
    round_closed(all_ticked::<SM>(heard, id_order(heard.cluster.nodes.dom())))
}

/// That many ticks, one after the other.
pub open spec fn after_ticks<SM: StateMachine>(
    c: ClusterState<SM::Command, SM::V>,
    n: nat,
) -> ClusterState<SM::Command, SM::V>
    decreases n,
{
    if n == 0 {
        c
    } else {
        cluster_ticked::<SM>(after_ticks::<SM>(c, (n - 1) as nat))
    }
}

/// A leader takes in a command, and what it sends goes out.
pub open spec fn cluster_proposed<SM: StateMachine>(
    c: ClusterState<SM::Command, SM::V>,
    id: NodeId,
    command: SM::Command,
) -> ClusterState<SM::Command, SM::V> {
    let result = proposed(c.nodes[id], command);
    round_closed(
        Round { cluster: node_stepped::<SM>(c, id, result), outgoing: result.1.effects },
    )
}

// ---- asking ----------------------------------------------------------------------

/// The node exists and believes itself to be leader.
pub open spec fn leads<C, M>(c: ClusterState<C, M>, id: NodeId) -> bool {
    c.nodes.contains_key(id) && c.nodes[id].standing is Leader
}

/// The first of these nodes that leads.
pub open spec fn first_leader<C, M>(c: ClusterState<C, M>, ids: Seq<NodeId>) -> Option<NodeId>
    decreases ids.len(),
{
    if ids.len() == 0 {
        None
    } else if leads(c, ids[0]) {
        Some(ids[0])
    } else {
        first_leader(c, ids.skip(1))
    }
}

/// The leader with the lowest id.
pub open spec fn lowest_leader<C, M>(c: ClusterState<C, M>) -> Option<NodeId> {
    first_leader(c, id_order(c.nodes.dom()))
}

/// The leaders among these nodes, with their terms, in the order given.
pub open spec fn leaders_of<C, M>(c: ClusterState<C, M>, ids: Seq<NodeId>) -> Seq<(Term, NodeId)>
    decreases ids.len(),
{
    if ids.len() == 0 {
        Seq::empty()
    } else {
        let before = leaders_of(c, ids.drop_last());
        if leads(c, ids.last()) {
            before.push((c.nodes[ids.last()].term, ids.last()))
        } else {
            before
        }
    }
}

/// The list holds all leaders, each once, with their terms.
pub open spec fn lists_leaders<C, M>(c: ClusterState<C, M>, leaders: Seq<(Term, NodeId)>) -> bool {
    &&& forall|i: int|
        #![trigger leaders[i]]
        0 <= i < leaders.len() ==> leads(c, leaders[i].1) && leaders[i].0
            == c.nodes[leaders[i].1].term
    &&& forall|i: int, j: int|
        #![trigger leaders[i], leaders[j]]
        0 <= i < j < leaders.len() ==> leaders[i].1 != leaders[j].1
    &&& forall|id: NodeId| #[trigger] leads(c, id) ==> leaders.contains((c.nodes[id].term, id))
}

proof fn lemma_leaders_one_by_one<C, M>(c: ClusterState<C, M>, ids: Seq<NodeId>)
    requires
        forall|i: int, j: int|
            #![trigger ids[i], ids[j]]
            0 <= i < j < ids.len() ==> ids[i] < ids[j],
    ensures
        forall|i: int|
            #![trigger leaders_of(c, ids)[i]]
            0 <= i < leaders_of(c, ids).len() ==> {
                let (term, id) = leaders_of(c, ids)[i];
                leads(c, id) && term == c.nodes[id].term && ids.contains(id)
            },
        forall|i: int, j: int|
            #![trigger leaders_of(c, ids)[i], leaders_of(c, ids)[j]]
            0 <= i < j < leaders_of(c, ids).len() ==> leaders_of(c, ids)[i].1 != leaders_of(
                c,
                ids,
            )[j].1,
        forall|i: int|
            #![trigger ids[i]]
            0 <= i < ids.len() && leads(c, ids[i]) ==> leaders_of(c, ids).contains(
                (c.nodes[ids[i]].term, ids[i]),
            ),
    decreases ids.len(),
{
    if ids.len() > 0 {
        let rest = ids.drop_last();
        let last = ids.last();
        let before = leaders_of(c, rest);
        let leaders = leaders_of(c, ids);
        lemma_leaders_one_by_one(c, rest);
        assert forall|id: NodeId| #[trigger] rest.contains(id) implies ids.contains(id) && id
            < last by {
            let j = choose|j: int| 0 <= j < rest.len() && rest[j] == id;
            assert(ids[j] == id);
            assert(ids[j] < ids[ids.len() - 1]);
        }
        assert(ids[ids.len() - 1] == last);
        assert forall|i: int| #![trigger leaders[i]] 0 <= i < leaders.len() implies {
            let (term, id) = leaders[i];
            leads(c, id) && term == c.nodes[id].term && ids.contains(id)
        } by {
            if i < before.len() {
                assert(leaders[i] == before[i]);
                assert(rest.contains(before[i].1));
            }
        }
        assert forall|i: int, j: int|
            #![trigger leaders[i], leaders[j]]
            0 <= i < j < leaders.len() implies leaders[i].1 != leaders[j].1 by {
            assert(leaders[i] == before[i]);
            assert(rest.contains(before[i].1));
            if j < before.len() {
                assert(leaders[j] == before[j]);
            }
        }
        assert forall|i: int|
            #![trigger ids[i]]
            0 <= i < ids.len() && leads(c, ids[i]) implies leaders.contains(
            (c.nodes[ids[i]].term, ids[i]),
        ) by {
            if i < rest.len() {
                assert(rest[i] == ids[i]);
                let x = (c.nodes[ids[i]].term, ids[i]);
                assert(before.contains(x));
                let j = choose|j: int| 0 <= j < before.len() && before[j] == x;
                assert(leaders[j] == x);
            } else {
                assert(leaders[leaders.len() - 1] == (c.nodes[last].term, last));
            }
        }
    }
}

/// The leaders among all nodes are all leaders.
pub proof fn lemma_leaders_of<C, M>(c: ClusterState<C, M>, ids: Seq<NodeId>)
    requires
        is_order_of(ids, c.nodes.dom()),
    ensures
        lists_leaders(c, leaders_of(c, ids)),
{
    lemma_leaders_one_by_one(c, ids);
    assert forall|id: NodeId| #[trigger] leads(c, id) implies leaders_of(c, ids).contains(
        (c.nodes[id].term, id),
    ) by {
        assert(ids.contains(id));
        let i = choose|i: int| 0 <= i < ids.len() && ids[i] == id;
        assert(leads(c, ids[i]));
    }
}

/// Election safety: at most one leader per term.
pub open spec fn one_leader_per_term<C, M>(c: ClusterState<C, M>) -> bool {
    forall|a: NodeId, b: NodeId|
        #![trigger leads(c, a), leads(c, b)]
        leads(c, a) && leads(c, b) && c.nodes[a].term == c.nodes[b].term ==> a == b
}

/// Index `k` is committed on the node and stands in its log.
pub open spec fn committed_on<C, M>(c: ClusterState<C, M>, id: NodeId, k: int) -> bool {
    &&& c.nodes.contains_key(id)
    &&& 1 <= k <= c.nodes[id].commit_index
    &&& k <= c.nodes[id].log.len()
}

/// For any index committed on two nodes, the entry there is the same on both.
pub open spec fn committed_entries_agree<C, M>(c: ClusterState<C, M>) -> bool {
    forall|a: NodeId, b: NodeId, k: int|
        #![trigger committed_on(c, a, k), committed_on(c, b, k)]
        committed_on(c, a, k) && committed_on(c, b, k) ==> c.nodes[a].log[k - 1]
            == c.nodes[b].log[k - 1]
}

/// For any index committed on two nodes, the term there is the same on both.
pub open spec fn committed_terms_agree<C, M>(c: ClusterState<C, M>) -> bool {
    forall|a: NodeId, b: NodeId, k: int|
        #![trigger committed_on(c, a, k), committed_on(c, b, k)]
        committed_on(c, a, k) && committed_on(c, b, k) ==> c.nodes[a].log[k - 1].term
            == c.nodes[b].log[k - 1].term
}

/// Those of the ids that are not disconnected, in the order given.
pub open spec fn connected(ids: Seq<NodeId>, disconnected: Set<NodeId>) -> Seq<NodeId> {
    ids.filter(|id: NodeId| !disconnected.contains(id))
}

/// All of these nodes exist.
pub open spec fn all_known<C, M>(c: ClusterState<C, M>, ids: Seq<NodeId>) -> bool {
    forall|i: int| #![trigger ids[i]] 0 <= i < ids.len() ==> c.nodes.contains_key(ids[i])
}

/// Every one of these nodes has committed up to `target`.
pub open spec fn all_committed<C, M>(
    c: ClusterState<C, M>,
    ids: Seq<NodeId>,
    target: LogIndex,
) -> bool {
    forall|i: int| #![trigger ids[i]] 0 <= i < ids.len() ==> c.nodes[ids[i]].commit_index >= target
}

/// Ticks until some node leads, at most `max` of them.
pub open spec fn until_leader<SM: StateMachine>(
    c: ClusterState<SM::Command, SM::V>,
    max: nat,
) -> (ClusterState<SM::Command, SM::V>, Option<NodeId>)
    decreases max,
{
    if max == 0 {
        (c, None)
    } else {
        let d = cluster_ticked::<SM>(c);
        match lowest_leader(d) {
            Some(id) => (d, Some(id)),
            None => until_leader::<SM>(d, (max - 1) as nat),
        }
    }
}

/// Ticks until one of these nodes leads, at most `max` of them.
pub open spec fn until_leader_among<SM: StateMachine>(
    c: ClusterState<SM::Command, SM::V>,
    ids: Seq<NodeId>,
    max: nat,
) -> (ClusterState<SM::Command, SM::V>, Option<NodeId>)
    decreases max,
{
    if max == 0 {
        (c, None)
    } else {
        let d = cluster_ticked::<SM>(c);
        match first_leader(d, ids) {
            Some(id) => (d, Some(id)),
            None => until_leader_among::<SM>(d, ids, (max - 1) as nat),
        }
    }
}

/// Going through these nodes in order, up to the first that has not committed
/// up to `target`, only nodes that exist are looked at.
pub open spec fn asks_known<C, M>(
    c: ClusterState<C, M>,
    ids: Seq<NodeId>,
    target: LogIndex,
) -> bool {
    forall|i: int|
        #![trigger ids[i]]
        0 <= i < ids.len() && all_committed(c, ids.take(i), target) ==> c.nodes.contains_key(ids[i])
}

/// The same after each of the ticks that it takes.
pub open spec fn never_asks_unknown<SM: StateMachine>(
    c: ClusterState<SM::Command, SM::V>,
    ids: Seq<NodeId>,
    target: LogIndex,
    max: nat,
) -> bool
    decreases max,
{
    max > 0 ==> {
        let d = cluster_ticked::<SM>(c);
        asks_known(d, ids, target) && (all_committed(d, ids, target) || never_asks_unknown::<SM>(
            d,
            ids,
            target,
            (max - 1) as nat,
        ))
    }
}

/// Ticks until all of these nodes have committed up to `target`, at most
/// `max` of them.
pub open spec fn until_committed<SM: StateMachine>(
    c: ClusterState<SM::Command, SM::V>,
    ids: Seq<NodeId>,
    target: LogIndex,
    max: nat,
) -> (ClusterState<SM::Command, SM::V>, bool)
    decreases max,
{
    if max == 0 {
        (c, false)
    } else {
        let d = cluster_ticked::<SM>(c);
        if all_committed(d, ids, target) {
            (d, true)
        } else {
            until_committed::<SM>(d, ids, target, (max - 1) as nat)
        }
    }
}

// ---- what always holds ------------------------------------------------------------

/// The nodes of the cluster together with their history.
pub open spec fn world_of<C, M>(
    c: ClusterState<C, M>,
    history: History<C>,
    clock: nat,
) -> World<C> {
    World { ids: c.nodes.dom(), nodes: c.nodes, history, clock }
}

/// What a node committed it has applied.
pub open spec fn settled<C>(s: NodeState<C>) -> bool {
    s.commit_index <= s.last_applied
}

/// A state machine is where the applied part of its node's log leads.
pub open spec fn machine_follows<SM: StateMachine>(
    c: ClusterState<SM::Command, SM::V>,
    id: NodeId,
) -> bool {
    c.machines[id] == all_applied::<SM>(
        SM::initial(),
        commands_between(c.nodes[id].log, 0, c.nodes[id].last_applied as int),
    )
}

/// What keeps a cluster safe, whatever its network does: its nodes got where
/// they are by the protocol, what is under way was sent, and every machine
/// follows its node.
pub open spec fn safe_cluster<SM: StateMachine>(
    c: ClusterState<SM::Command, SM::V>,
    history: History<SM::Command>,
    clock: nat,
) -> bool {
    &&& safe(world_of(c, history, clock))
    &&& c.machines.dom() == c.nodes.dom()
    &&& forall|i: int|
        #![trigger c.network.queue[i]]
        0 <= i < c.network.queue.len() ==> history.sent.contains(c.network.queue[i].message)
    &&& forall|id: NodeId|
        #![trigger c.nodes[id]]
        c.nodes.contains_key(id) ==> settled(c.nodes[id])
    &&& forall|id: NodeId| c.nodes.contains_key(id) ==> #[trigger] machine_follows::<SM>(c, id)
}

/// What holds of a cluster at every step, also in the middle of a tick.
pub open spec fn sound_cluster<SM: StateMachine>(
    c: ClusterState<SM::Command, SM::V>,
    history: History<SM::Command>,
    clock: nat,
) -> bool {
    &&& safe_cluster::<SM>(c, history, clock)
    &&& sound_network(c.network)
    &&& c.network.now == c.tick_count
}

/// What was applied on any node is still there, and nothing went back: no
/// term, and nothing that was applied.
pub open spec fn nothing_lost<C, M>(c: ClusterState<C, M>, d: ClusterState<C, M>) -> bool {
    &&& c.nodes.dom() == d.nodes.dom()
    &&& forall|id: NodeId|
        #![trigger d.nodes[id]]
        c.nodes.contains_key(id) ==> {
            &&& c.nodes[id].term <= d.nodes[id].term
            &&& c.nodes[id].last_applied <= d.nodes[id].last_applied
            &&& agree(c.nodes[id].log, d.nodes[id].log, c.nodes[id].last_applied as int)
        }
}

/// All of these messages were sent.
pub open spec fn all_sent<C>(history: History<C>, messages: Seq<Message<C>>) -> bool {
    forall|i: int|
        #![trigger messages[i]]
        0 <= i < messages.len() ==> history.sent.contains(messages[i])
}

/// The counters have room for `n` more ticks.
pub open spec fn room_for<C, M>(c: ClusterState<C, M>, proposals: nat, n: int) -> bool {
    &&& c.tick_count + n + longest_latency(c.network.config) <= u64::MAX
    &&& c.tick_count + n + proposals < u64::MAX
}

} // verus!
