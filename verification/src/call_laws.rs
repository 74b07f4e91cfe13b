//! What the calls on a cluster do, told node by node and tick by tick.

use vstd::prelude::*;

use crate::cluster::Cluster;
use crate::cluster_state::{
    after_ticks, all_applied, all_committed, all_delivered, all_ticked, cluster_proposed,
    cluster_ticked, committed_entries_agree, committed_on, committed_terms_agree, connected,
    delivered, first_leader, fresh_cluster, id_order, leaders_of, leads, lemma_leaders_of,
    lemma_order_exists, lemma_order_is, lowest_leader, machine_follows, node_ticked, nothing_lost,
    one_leader_per_term, others, safe_cluster, tick_begun, until_committed, until_leader,
    until_leader_among, ClusterState, Round,
};
use crate::node::{Committed, RaftConfig};
use crate::node_laws::Input;
use crate::protocol::{commands_between, fresh_node, proposed, received, ticked, NodeState};
use crate::random::seeded_generator;
use crate::rpc::{LogIndex, Message, NodeId};
use crate::run_laws::run;
use crate::safety::world::History;
use crate::sim::network::{advanced, all_dispatched, fresh_network, NetworkConfig};
use crate::state_machine::StateMachine;
use crate::storage::{LogCommand, LogEntry};

verus! {

// ---- the order of the nodes -------------------------------------------------------

/// The list holds exactly the ids of the set, from the lowest to the highest.
pub open spec fn lists_in_order(order: Seq<NodeId>, ids: Set<NodeId>) -> bool {
    &&& forall|i: int, j: int|
        #![trigger order[i], order[j]]
        0 <= i < j < order.len() ==> order[i] < order[j]
    &&& forall|id: NodeId| ids.contains(id) <==> #[trigger] order.contains(id)
}

/// The ids of a cluster are listed from the lowest to the highest, and there
/// is just one such list.
pub proof fn law_ids_are_listed_in_order(ids: Set<NodeId>, order: Seq<NodeId>)
    requires
        ids.finite(),
    ensures
        lists_in_order(id_order(ids), ids),
        lists_in_order(order, ids) ==> order == id_order(ids),
{
    lemma_order_exists(ids);
    if lists_in_order(order, ids) {
        lemma_order_is(order, ids);
    }
}

// ---- a tick -----------------------------------------------------------------------

/// What becomes of the nodes, and what they send, when these nodes take in
/// these inputs one after the other. What is meant for a node that does not
/// exist is lost.
pub open spec fn conducted<C>(
    nodes: Map<NodeId, NodeState<C>>,
    steps: Seq<(NodeId, Input<C>)>,
) -> (Map<NodeId, NodeState<C>>, Seq<Message<C>>)
    decreases steps.len(),
{
    if steps.len() == 0 {
        (nodes, Seq::empty())
    } else {
        let (before, sent) = conducted(nodes, steps.drop_last());
        let (id, input) = steps.last();
        if before.contains_key(id) {
            let (t, step) = match input {
                Input::Tick => ticked(before[id]),
                Input::Receive(message) => received(before[id], message),
                Input::Propose(command) => proposed(before[id], command),
            };
            (before.insert(id, t), sent + step.effects)
        } else {
            (before, sent)
        }
    }
}

/// First every message that is due goes to its addressee, in the order in
/// which the network returns them; then every node ticks, from the lowest id
/// to the highest.
pub open spec fn steps_of_a_tick<C>(
    due: Seq<Message<C>>,
    order: Seq<NodeId>,
) -> Seq<(NodeId, Input<C>)> {
    Seq::new(due.len(), |i: int| (due[i].to, Input::Receive(due[i]))) + Seq::new(
        order.len(),
        |i: int| (order[i], Input::Tick),
    )
}

/// A tick of a cluster: the clock moves, every message that is due reaches
/// its addressee, every node ticks once, and all that they send goes to the
/// network, in that order.
pub proof fn law_cluster_tick<SM: StateMachine>(
    c: ClusterState<SM::Command, SM::V>,
    order: Seq<NodeId>,
)
    requires
        c.tick_count < u64::MAX,
        lists_in_order(order, c.nodes.dom()),
    ensures
        ({
            let d = cluster_ticked::<SM>(c);
            let (network, due) = advanced(c.network);
            let (nodes, sent) = conducted(c.nodes, steps_of_a_tick(due, order));
            &&& d.tick_count == c.tick_count + 1
            &&& d.nodes == nodes
            &&& d.network == all_dispatched(network, sent)
        }),
{
    let (begun, due) = tick_begun(c);
    let heard = all_delivered::<SM>(begun, due);
    let first = Seq::new(due.len(), |i: int| (due[i].to, Input::Receive(due[i])));
    lemma_conducted_deliveries::<SM>(begun, due);
    lemma_order_is(order, c.nodes.dom());
    assert forall|i: int|
        #![trigger order[i]]
        0 <= i < order.len() implies heard.cluster.nodes.contains_key(
        order[i],
    ) by {
        assert(order.contains(order[i]));
    }
    lemma_conducted_ticks::<SM>(c.nodes, first, heard, order);
    let steps = first + Seq::new(order.len(), |i: int| (order[i], Input::Tick));
    assert(steps =~= steps_of_a_tick(due, order));
}

proof fn lemma_conducted_deliveries<SM: StateMachine>(
    r: Round<SM::Command, SM::V>,
    due: Seq<Message<SM::Command>>,
)
    requires
        r.outgoing.len() == 0,
    ensures
        ({
            let q = all_delivered::<SM>(r, due);
            let steps = Seq::new(due.len(), |i: int| (due[i].to, Input::Receive(due[i])));
            &&& (q.cluster.nodes, q.outgoing) == conducted(r.cluster.nodes, steps)
            &&& q.cluster.nodes.dom() == r.cluster.nodes.dom()
            &&& q.cluster.network == r.cluster.network
            &&& q.cluster.tick_count == r.cluster.tick_count
        }),
    decreases due.len(),
{
    let steps = Seq::new(due.len(), |i: int| (due[i].to, Input::Receive(due[i])));
    if due.len() == 0 {
        assert(r.outgoing =~= Seq::empty());
    } else {
        let rest = due.drop_last();
        lemma_conducted_deliveries::<SM>(r, rest);
        assert(steps.drop_last() =~= Seq::new(
            rest.len(),
            |i: int| (rest[i].to, Input::Receive(rest[i])),
        ));
        assert(steps.last() == (due.last().to, Input::Receive(due.last())));
        let q = all_delivered::<SM>(r, rest);
        assert(delivered::<SM>(q, due.last()).cluster.nodes.dom() =~= q.cluster.nodes.dom());
    }
}

proof fn lemma_conducted_ticks<SM: StateMachine>(
    nodes: Map<NodeId, NodeState<SM::Command>>,
    first: Seq<(NodeId, Input<SM::Command>)>,
    r: Round<SM::Command, SM::V>,
    ids: Seq<NodeId>,
)
    requires
        (r.cluster.nodes, r.outgoing) == conducted(nodes, first),
        forall|i: int|
            #![trigger ids[i]]
            0 <= i < ids.len() ==> r.cluster.nodes.contains_key(ids[i]),
    ensures
        ({
            let q = all_ticked::<SM>(r, ids);
            let steps = first + Seq::new(ids.len(), |i: int| (ids[i], Input::Tick));
            &&& (q.cluster.nodes, q.outgoing) == conducted(nodes, steps)
            &&& q.cluster.nodes.dom() == r.cluster.nodes.dom()
            &&& q.cluster.network == r.cluster.network
            &&& q.cluster.tick_count == r.cluster.tick_count
        }),
    decreases ids.len(),
{
    let steps = first + Seq::new(ids.len(), |i: int| (ids[i], Input::Tick));
    if ids.len() == 0 {
        assert(steps =~= first);
    } else {
        let rest = ids.drop_last();
        assert forall|i: int|
            #![trigger rest[i]]
            0 <= i < rest.len() implies r.cluster.nodes.contains_key(
            rest[i],
        ) by {
            assert(rest[i] == ids[i]);
        }
        lemma_conducted_ticks::<SM>(nodes, first, r, rest);
        assert(steps.drop_last() =~= first + Seq::new(
            rest.len(),
            |i: int| (rest[i], Input::Tick),
        ));
        assert(steps.last() == (ids.last(), Input::<SM::Command>::Tick));
        assert(ids[ids.len() - 1] == ids.last());
        let q = all_ticked::<SM>(r, rest);
        assert(node_ticked::<SM>(q, ids.last()).cluster.nodes.dom() =~= q.cluster.nodes.dom());
    }
}

/// The inputs among these that are meant for the node, in order.
pub open spec fn meant_for<C>(steps: Seq<(NodeId, Input<C>)>, id: NodeId) -> Seq<Input<C>>
    decreases steps.len(),
{
    if steps.len() == 0 {
        Seq::empty()
    } else {
        let before = meant_for(steps.drop_last(), id);
        if steps.last().0 == id {
            before.push(steps.last().1)
        } else {
            before
        }
    }
}

/// The messages among these that are addressed to the node, in order.
pub open spec fn heard_by<C>(due: Seq<Message<C>>, id: NodeId) -> Seq<Input<C>>
    decreases due.len(),
{
    if due.len() == 0 {
        Seq::empty()
    } else {
        let before = heard_by(due.drop_last(), id);
        if due.last().to == id {
            before.push(Input::Receive(due.last()))
        } else {
            before
        }
    }
}

/// In a tick every node takes in exactly the messages that are due and
/// addressed to it, in order, and then ticks once; and no node comes or goes.
pub proof fn law_each_node_hears_and_ticks<SM: StateMachine>(
    c: ClusterState<SM::Command, SM::V>,
    id: NodeId,
)
    requires
        c.tick_count < u64::MAX,
        c.nodes.dom().finite(),
        c.nodes.contains_key(id),
    ensures
        cluster_ticked::<SM>(c).nodes.dom() == c.nodes.dom(),
        cluster_ticked::<SM>(c).nodes[id] == run(
            c.nodes[id],
            heard_by(advanced(c.network).1, id).push(Input::Tick),
        ).0,
{
    let due = advanced(c.network).1;
    let order = id_order(c.nodes.dom());
    law_ids_are_listed_in_order(c.nodes.dom(), order);
    law_cluster_tick::<SM>(c, order);
    let steps = steps_of_a_tick(due, order);
    assert forall|i: int| 0 <= i < steps.len() implies !((#[trigger] steps[i]).1 is Propose) by {}
    lemma_conducted_for_one(c.nodes, steps, id);
    lemma_meant_for_deliveries(due, id);
    assert(order.contains(id));
    let first = Seq::new(due.len(), |i: int| (due[i].to, Input::Receive(due[i])));
    lemma_meant_for_ticks(first, order, id);
    assert(steps =~= first + Seq::new(order.len(), |i: int| (order[i], Input::Tick)));
}

proof fn lemma_conducted_for_one<C>(
    nodes: Map<NodeId, NodeState<C>>,
    steps: Seq<(NodeId, Input<C>)>,
    id: NodeId,
)
    requires
        nodes.contains_key(id),
        forall|i: int| 0 <= i < steps.len() ==> !((#[trigger] steps[i]).1 is Propose),
    ensures
        conducted(nodes, steps).0.dom() == nodes.dom(),
        conducted(nodes, steps).0[id] == run(nodes[id], meant_for(steps, id)).0,
    decreases steps.len(),
{
    if steps.len() > 0 {
        let rest = steps.drop_last();
        assert forall|i: int| 0 <= i < rest.len() implies !((#[trigger] rest[i]).1 is Propose) by {
            assert(rest[i] == steps[i]);
        }
        lemma_conducted_for_one(nodes, rest, id);
        assert(steps[steps.len() - 1] == steps.last());
        let before = meant_for(rest, id);
        assert(before.push(steps.last().1).drop_last() =~= before);
        assert(conducted(nodes, steps).0.dom() =~= nodes.dom());
    }
}

proof fn lemma_meant_for_deliveries<C>(due: Seq<Message<C>>, id: NodeId)
    ensures
        meant_for(Seq::new(due.len(), |i: int| (due[i].to, Input::Receive(due[i]))), id)
            == heard_by(due, id),
    decreases due.len(),
{
    let steps = Seq::new(due.len(), |i: int| (due[i].to, Input::Receive(due[i])));
    if due.len() > 0 {
        let rest = due.drop_last();
        lemma_meant_for_deliveries(rest, id);
        assert(steps.drop_last() =~= Seq::new(
            rest.len(),
            |i: int| (rest[i].to, Input::Receive(rest[i])),
        ));
    }
}

proof fn lemma_meant_for_ticks<C>(first: Seq<(NodeId, Input<C>)>, ids: Seq<NodeId>, id: NodeId)
    requires
        forall|i: int, j: int|
            #![trigger ids[i], ids[j]]
            0 <= i < j < ids.len() ==> ids[i] < ids[j],
    ensures
        meant_for(first + Seq::new(ids.len(), |i: int| (ids[i], Input::Tick)), id) == (
        if ids.contains(id) {
            meant_for(first, id).push(Input::Tick)
        } else {
            meant_for(first, id)
        }),
    decreases ids.len(),
{
    let steps = first + Seq::new(ids.len(), |i: int| (ids[i], Input::Tick));
    if ids.len() == 0 {
        assert(steps =~= first);
    } else {
        let rest = ids.drop_last();
        assert forall|i: int, j: int|
            #![trigger rest[i], rest[j]]
            0 <= i < j < rest.len() implies rest[i] < rest[j] by {
            assert(ids[i] < ids[j]);
        }
        lemma_meant_for_ticks(first, rest, id);
        assert(steps.drop_last() =~= first + Seq::new(
            rest.len(),
            |i: int| (rest[i], Input::Tick),
        ));
        assert(steps.last() == (ids.last(), Input::<C>::Tick));
        assert(ids[ids.len() - 1] == ids.last());
        if rest.contains(id) {
            let i = choose|i: int| 0 <= i < rest.len() && rest[i] == id;
            assert(ids[i] == id);
            assert(ids[i] < ids[ids.len() - 1]);
        }
        if ids.contains(id) && ids.last() != id {
            let i = choose|i: int| 0 <= i < ids.len() && ids[i] == id;
            assert(rest[i] == id);
        }
    }
}

/// A proposal that a leader takes in: that node takes the command in, what it
/// sends goes to the network in order, and no other node and no clock moves.
pub proof fn law_cluster_propose<SM: StateMachine>(
    c: ClusterState<SM::Command, SM::V>,
    id: NodeId,
    command: SM::Command,
)
    requires
        c.nodes.contains_key(id),
    ensures
        ({
            let d = cluster_proposed::<SM>(c, id, command);
            let (t, step) = proposed(c.nodes[id], command);
            &&& d.nodes.dom() == c.nodes.dom()
            &&& d.nodes[id] == t
            &&& forall|other: NodeId| other != id ==> #[trigger] d.nodes[other] == c.nodes[other]
            &&& d.network == all_dispatched(c.network, step.effects)
            &&& d.tick_count == c.tick_count
        }),
{
    assert(cluster_proposed::<SM>(c, id, command).nodes.dom() =~= c.nodes.dom());
}

// ---- applying ---------------------------------------------------------------------

/// The state that the commands among the first `n` entries of a log lead to,
/// each applied once and in log order.
pub open spec fn replayed<SM: StateMachine>(log: Seq<LogEntry<SM::Command>>, n: int) -> SM::V
    decreases n,
{
    if n <= 0 {
        SM::initial()
    } else {
        let before = replayed::<SM>(log, n - 1);
        match log[n - 1].command {
            LogCommand::Command(command) => SM::after(before, command),
            LogCommand::NoOp => before,
        }
    }
}

/// Every state machine is where the applied part of its node's log leads:
/// every command there was applied, once and in log order, and nothing else.
pub proof fn law_machines_replay_the_log<SM: StateMachine>(
    c: ClusterState<SM::Command, SM::V>,
    history: History<SM::Command>,
    clock: nat,
    id: NodeId,
)
    requires
        safe_cluster::<SM>(c, history, clock),
        c.nodes.contains_key(id),
    ensures
        c.machines.dom() == c.nodes.dom(),
        c.machines[id] == replayed::<SM>(c.nodes[id].log, c.nodes[id].last_applied as int),
{
    crate::cluster_laws::law_committed_entries_are_held::<SM>(c, history, clock, id);
    assert(machine_follows::<SM>(c, id));
    lemma_replayed::<SM>(c.nodes[id].log, c.nodes[id].last_applied as int);
}

proof fn lemma_replayed<SM: StateMachine>(log: Seq<LogEntry<SM::Command>>, n: int)
    requires
        0 <= n <= log.len(),
    ensures
        all_applied::<SM>(SM::initial(), commands_between(log, 0, n)) == replayed::<SM>(log, n),
    decreases n,
{
    if n > 0 {
        lemma_replayed::<SM>(log, n - 1);
        let before = commands_between(log, 0, n - 1);
        if let LogCommand::Command(command) = log[n - 1].command {
            let all = commands_between(log, 0, n);
            assert(all.drop_last() =~= before);
            assert(all.last().command == command);
        }
    }
}

/// Commands applied together are applied one after the other.
pub proof fn law_applying_in_turn<SM: StateMachine>(
    state: SM::V,
    a: Seq<Committed<SM::Command>>,
    b: Seq<Committed<SM::Command>>,
    one: Committed<SM::Command>,
)
    ensures
        all_applied::<SM>(state, Seq::empty()) == state,
        all_applied::<SM>(state, seq![one]) == SM::after(state, one.command),
        all_applied::<SM>(state, a + b) == all_applied::<SM>(all_applied::<SM>(state, a), b),
    decreases b.len(),
{
    assert(seq![one].drop_last() =~= Seq::empty());
    assert(all_applied::<SM>(state, seq![one].drop_last()) == state);
    if b.len() == 0 {
        assert(a + b =~= a);
    } else {
        law_applying_in_turn::<SM>(state, a, b.drop_last(), one);
        assert((a + b).drop_last() =~= a + b.drop_last());
    }
}

// ---- many ticks -------------------------------------------------------------------

/// Ticks add up.
pub proof fn law_ticks_add_up<SM: StateMachine>(
    c: ClusterState<SM::Command, SM::V>,
    a: nat,
    b: nat,
)
    ensures
        after_ticks::<SM>(c, 0) == c,
        after_ticks::<SM>(c, 1) == cluster_ticked::<SM>(c),
        after_ticks::<SM>(c, a + b) == after_ticks::<SM>(after_ticks::<SM>(c, a), b),
{
    lemma_few_ticks::<SM>(c);
    lemma_ticks_add_up::<SM>(c, a, b);
}

proof fn lemma_few_ticks<SM: StateMachine>(c: ClusterState<SM::Command, SM::V>)
    ensures
        after_ticks::<SM>(c, 0) == c,
        after_ticks::<SM>(c, 1) == cluster_ticked::<SM>(c),
{
    assert(after_ticks::<SM>(c, 0) == c);
}

proof fn lemma_ticks_add_up<SM: StateMachine>(
    c: ClusterState<SM::Command, SM::V>,
    a: nat,
    b: nat,
)
    ensures
        after_ticks::<SM>(c, a + b) == after_ticks::<SM>(after_ticks::<SM>(c, a), b),
    decreases b,
{
    let d = after_ticks::<SM>(c, a);
    if b > 0 {
        let before = (b - 1) as nat;
        lemma_ticks_add_up::<SM>(c, a, before);
        assert((a + b - 1) as nat == a + before);
        assert(after_ticks::<SM>(c, a + b) == cluster_ticked::<SM>(
            after_ticks::<SM>(c, a + before),
        ));
        assert(after_ticks::<SM>(d, b) == cluster_ticked::<SM>(after_ticks::<SM>(d, before)));
    }
}

proof fn lemma_one_tick_first<SM: StateMachine>(c: ClusterState<SM::Command, SM::V>, n: nat)
    ensures
        after_ticks::<SM>(cluster_ticked::<SM>(c), n) == after_ticks::<SM>(c, n + 1),
{
    law_ticks_add_up::<SM>(c, 1, n);
}

/// The node exists and leads.
pub open spec fn is_leader<C, M>(c: ClusterState<C, M>, id: NodeId) -> bool {
    c.nodes.contains_key(id) && c.nodes[id].standing is Leader
}

/// Asked for the first leader in a list, one gets the node that leads and
/// stands before every other in the list that does, or learns that none does.
pub proof fn law_first_leader<C, M>(c: ClusterState<C, M>, ids: Seq<NodeId>)
    ensures
        match first_leader(c, ids) {
            Some(id) => is_leader(c, id) && exists|i: int|
                0 <= i < ids.len() && #[trigger] ids[i] == id && forall|j: int|
                    0 <= j < i ==> !is_leader(c, #[trigger] ids[j]),
            None => forall|j: int| 0 <= j < ids.len() ==> !is_leader(c, #[trigger] ids[j]),
        },
    decreases ids.len(),
{
    if ids.len() > 0 {
        if is_leader(c, ids[0]) {
            assert(ids[0] == ids[0]);
        } else {
            let rest = ids.skip(1);
            law_first_leader(c, rest);
            match first_leader(c, rest) {
                Some(id) => {
                    let i = choose|i: int|
                        0 <= i < rest.len() && #[trigger] rest[i] == id && forall|j: int|
                            0 <= j < i ==> !is_leader(c, #[trigger] rest[j]);
                    assert(ids[i + 1] == id);
                    assert forall|j: int| 0 <= j < i + 1 implies !is_leader(c, #[trigger] ids[j]) by {
                        if j > 0 {
                            assert(rest[j - 1] == ids[j]);
                        }
                    }
                },
                None => {
                    assert forall|j: int| 0 <= j < ids.len() implies !is_leader(
                        c,
                        #[trigger] ids[j],
                    ) by {
                        if j > 0 {
                            assert(rest[j - 1] == ids[j]);
                        }
                    }
                },
            }
        }
    }
}

/// The current leader is the one with the lowest id; there is none only if no
/// node leads.
pub proof fn law_lowest_leader<C, M>(c: ClusterState<C, M>, other: NodeId)
    requires
        c.nodes.dom().finite(),
    ensures
        lowest_leader(c) matches Some(id) ==> is_leader(c, id) && (is_leader(c, other) ==> id
            <= other),
        is_leader(c, other) ==> lowest_leader(c) is Some,
{
    let order = id_order(c.nodes.dom());
    law_ids_are_listed_in_order(c.nodes.dom(), order);
    law_first_leader(c, order);
    if is_leader(c, other) {
        assert(order.contains(other));
        let k = choose|k: int| 0 <= k < order.len() && order[k] == other;
        assert(is_leader(c, order[k]));
        if let Some(id) = lowest_leader(c) {
            let i = choose|i: int|
                0 <= i < order.len() && #[trigger] order[i] == id && forall|j: int|
                    0 <= j < i ==> !is_leader(c, #[trigger] order[j]);
            if k < i {
                assert(!is_leader(c, order[k]));
            } else if i < k {
                assert(order[i] < order[k]);
            }
        }
    }
}

/// The list of leaders holds every node that leads, once, with its term, from
/// the lowest id to the highest, and no other.
pub proof fn law_leaders<C, M>(c: ClusterState<C, M>, order: Seq<NodeId>)
    requires
        lists_in_order(order, c.nodes.dom()),
    ensures
        ({
            let leaders = leaders_of(c, order);
            &&& forall|i: int, j: int|
                #![trigger leaders[i], leaders[j]]
                0 <= i < j < leaders.len() ==> leaders[i].1 < leaders[j].1
            &&& forall|i: int|
                #![trigger leaders[i]]
                0 <= i < leaders.len() ==> is_leader(c, leaders[i].1) && leaders[i].0
                    == c.nodes[leaders[i].1].term
            &&& forall|id: NodeId| #[trigger]
                is_leader(c, id) ==> exists|i: int|
                    0 <= i < leaders.len() && (#[trigger] leaders[i]).1 == id
        }),
{
    let leaders = leaders_of(c, order);
    lemma_leaders_of(c, order);
    lemma_leaders_ascend(c, order);
    assert forall|id: NodeId| #[trigger] is_leader(c, id) implies exists|i: int|
        0 <= i < leaders.len() && (#[trigger] leaders[i]).1 == id by {
        assert(leads(c, id));
        assert(leaders.contains((c.nodes[id].term, id)));
        let i = choose|i: int| 0 <= i < leaders.len() && leaders[i] == (c.nodes[id].term, id);
        assert(leaders[i].1 == id);
    }
    assert forall|i: int| #![trigger leaders[i]] 0 <= i < leaders.len() implies is_leader(
        c,
        leaders[i].1,
    ) && leaders[i].0 == c.nodes[leaders[i].1].term by {
        assert(leads(c, leaders[i].1));
    }
}

proof fn lemma_leaders_ascend<C, M>(c: ClusterState<C, M>, ids: Seq<NodeId>)
    requires
        forall|i: int, j: int|
            #![trigger ids[i], ids[j]]
            0 <= i < j < ids.len() ==> ids[i] < ids[j],
    ensures
        forall|i: int, j: int|
            #![trigger leaders_of(c, ids)[i], leaders_of(c, ids)[j]]
            0 <= i < j < leaders_of(c, ids).len() ==> leaders_of(c, ids)[i].1 < leaders_of(
                c,
                ids,
            )[j].1,
        forall|i: int|
            #![trigger leaders_of(c, ids)[i]]
            0 <= i < leaders_of(c, ids).len() ==> ids.contains(leaders_of(c, ids)[i].1),
    decreases ids.len(),
{
    if ids.len() > 0 {
        let rest = ids.drop_last();
        assert forall|i: int, j: int|
            #![trigger rest[i], rest[j]]
            0 <= i < j < rest.len() implies rest[i] < rest[j] by {
            assert(ids[i] < ids[j]);
        }
        lemma_leaders_ascend(c, rest);
        let before = leaders_of(c, rest);
        let leaders = leaders_of(c, ids);
        assert forall|i: int| #![trigger before[i]] 0 <= i < before.len() implies before[i].1
            < ids.last() && ids.contains(before[i].1) by {
            assert(rest.contains(before[i].1));
            let k = choose|k: int| 0 <= k < rest.len() && rest[k] == before[i].1;
            assert(ids[k] < ids[ids.len() - 1]);
            assert(ids[k] == before[i].1);
        }
        assert forall|i: int| #![trigger leaders[i]] 0 <= i < leaders.len() implies ids.contains(
            leaders[i].1,
        ) by {
            if i < before.len() {
                assert(leaders[i] == before[i]);
            } else {
                assert(ids[ids.len() - 1] == leaders[i].1);
            }
        }
        assert forall|i: int, j: int|
            #![trigger leaders[i], leaders[j]]
            0 <= i < j < leaders.len() implies leaders[i].1 < leaders[j].1 by {
            assert(leaders[i] == before[i]);
            if j < before.len() {
                assert(leaders[j] == before[j]);
            }
        }
    }
}

/// Running until there is a leader stops after the first tick at which there
/// is one, or after the last; the result gives how many ticks went by.
pub proof fn law_run_until_leader<SM: StateMachine>(
    c: ClusterState<SM::Command, SM::V>,
    max: nat,
) -> (n: nat)
    ensures
        n <= max,
        until_leader::<SM>(c, max).0 == after_ticks::<SM>(c, n),
        forall|k: nat|
            0 < k < n ==> lowest_leader(#[trigger] after_ticks::<SM>(c, k)) is None,
        until_leader::<SM>(c, max).1 is Some ==> n > 0 && until_leader::<SM>(c, max).1
            == lowest_leader(after_ticks::<SM>(c, n)),
        until_leader::<SM>(c, max).1 is None ==> n == max && (n > 0 ==> lowest_leader(
            after_ticks::<SM>(c, n),
        ) is None),
    decreases max,
{
    law_ticks_add_up::<SM>(c, 0, 0);
    if max == 0 {
        0
    } else {
        let d = cluster_ticked::<SM>(c);
        if lowest_leader(d) is Some {
            1
        } else {
            let m = law_run_until_leader::<SM>(d, (max - 1) as nat);
            lemma_one_tick_first::<SM>(c, m);
            assert forall|k: nat| 0 < k < m + 1 implies lowest_leader(
                #[trigger] after_ticks::<SM>(c, k),
            ) is None by {
                if k > 1 {
                    lemma_one_tick_first::<SM>(c, (k - 1) as nat);
                    assert(lowest_leader(after_ticks::<SM>(d, (k - 1) as nat)) is None);
                }
            }
            m + 1
        }
    }
}

/// Running until one of these nodes leads stops after the first tick at which
/// one does, or after the last; the result gives how many ticks went by.
pub proof fn law_run_until_leader_among<SM: StateMachine>(
    c: ClusterState<SM::Command, SM::V>,
    ids: Seq<NodeId>,
    max: nat,
) -> (n: nat)
    ensures
        n <= max,
        until_leader_among::<SM>(c, ids, max).0 == after_ticks::<SM>(c, n),
        forall|k: nat|
            0 < k < n ==> first_leader(#[trigger] after_ticks::<SM>(c, k), ids) is None,
        until_leader_among::<SM>(c, ids, max).1 is Some ==> n > 0 && until_leader_among::<SM>(
            c,
            ids,
            max,
        ).1 == first_leader(after_ticks::<SM>(c, n), ids),
        until_leader_among::<SM>(c, ids, max).1 is None ==> n == max && (n > 0 ==> first_leader(
            after_ticks::<SM>(c, n),
            ids,
        ) is None),
    decreases max,
{
    law_ticks_add_up::<SM>(c, 0, 0);
    if max == 0 {
        0
    } else {
        let d = cluster_ticked::<SM>(c);
        if first_leader(d, ids) is Some {
            1
        } else {
            let m = law_run_until_leader_among::<SM>(d, ids, (max - 1) as nat);
            lemma_one_tick_first::<SM>(c, m);
            assert forall|k: nat| 0 < k < m + 1 implies first_leader(
                #[trigger] after_ticks::<SM>(c, k),
                ids,
            ) is None by {
                if k > 1 {
                    lemma_one_tick_first::<SM>(c, (k - 1) as nat);
                    assert(first_leader(after_ticks::<SM>(d, (k - 1) as nat), ids) is None);
                }
            }
            m + 1
        }
    }
}

/// Some of these nodes has committed less than `target`.
pub open spec fn some_behind<C, M>(
    c: ClusterState<C, M>,
    ids: Seq<NodeId>,
    target: LogIndex,
) -> bool {
    exists|i: int| 0 <= i < ids.len() && c.nodes[#[trigger] ids[i]].commit_index < target
}

/// Running until these nodes have committed up to a target stops after the
/// first tick at which none of them is behind it, or after the last; the
/// result gives how many ticks went by.
pub proof fn law_run_until_committed<SM: StateMachine>(
    c: ClusterState<SM::Command, SM::V>,
    ids: Seq<NodeId>,
    target: LogIndex,
    max: nat,
) -> (n: nat)
    ensures
        n <= max,
        until_committed::<SM>(c, ids, target, max).0 == after_ticks::<SM>(c, n),
        forall|k: nat| 0 < k < n ==> some_behind(#[trigger] after_ticks::<SM>(c, k), ids, target),
        until_committed::<SM>(c, ids, target, max).1 ==> n > 0 && !some_behind(
            after_ticks::<SM>(c, n),
            ids,
            target,
        ),
        !until_committed::<SM>(c, ids, target, max).1 ==> n == max && (n > 0 ==> some_behind(
            after_ticks::<SM>(c, n),
            ids,
            target,
        )),
    decreases max,
{
    law_ticks_add_up::<SM>(c, 0, 0);
    if max == 0 {
        0
    } else {
        let d = cluster_ticked::<SM>(c);
        lemma_behind(d, ids, target);
        if all_committed(d, ids, target) {
            1
        } else {
            let m = law_run_until_committed::<SM>(d, ids, target, (max - 1) as nat);
            lemma_one_tick_first::<SM>(c, m);
            assert forall|k: nat| 0 < k < m + 1 implies some_behind(
                #[trigger] after_ticks::<SM>(c, k),
                ids,
                target,
            ) by {
                if k > 1 {
                    lemma_one_tick_first::<SM>(c, (k - 1) as nat);
                    assert(some_behind(after_ticks::<SM>(d, (k - 1) as nat), ids, target));
                }
            }
            m + 1
        }
    }
}

proof fn lemma_behind<C, M>(c: ClusterState<C, M>, ids: Seq<NodeId>, target: LogIndex)
    ensures
        all_committed(c, ids, target) <==> !some_behind(c, ids, target),
{
    if !all_committed(c, ids, target) {
        let i = choose|i: int|
            #![trigger ids[i]]
            0 <= i < ids.len() && !(c.nodes[ids[i]].commit_index >= target);
        assert(c.nodes[ids[i]].commit_index < target);
    }
}

// ---- asking and checking ----------------------------------------------------------

/// The ids that are reachable are those that are not disconnected, and they
/// stay in order.
pub proof fn law_reachable_ids(ids: Seq<NodeId>, disconnected: Set<NodeId>, id: NodeId)
    ensures
        connected(ids, disconnected).contains(id) <==> ids.contains(id) && !disconnected.contains(
            id,
        ),
        (forall|i: int, j: int|
            #![trigger ids[i], ids[j]]
            0 <= i < j < ids.len() ==> ids[i] < ids[j]) ==> forall|i: int, j: int|
            #![trigger connected(ids, disconnected)[i], connected(ids, disconnected)[j]]
            0 <= i < j < connected(ids, disconnected).len() ==> connected(ids, disconnected)[i]
                < connected(ids, disconnected)[j],
    decreases ids.len(),
{
    reveal(Seq::filter);
    if ids.len() > 0 {
        let rest = ids.drop_last();
        let last = ids.last();
        let before = connected(rest, disconnected);
        let kept = connected(ids, disconnected);
        assert(ids[ids.len() - 1] == last);
        law_reachable_ids(rest, disconnected, id);
        if kept.contains(id) {
            let i = choose|i: int| 0 <= i < kept.len() && kept[i] == id;
            if i < before.len() {
                assert(before[i] == id);
                assert(before.contains(id));
                let j = choose|j: int| 0 <= j < rest.len() && rest[j] == id;
                assert(ids[j] == id);
            }
        }
        if ids.contains(id) && !disconnected.contains(id) {
            let j = choose|j: int| 0 <= j < ids.len() && ids[j] == id;
            if j < rest.len() {
                assert(rest[j] == id);
                assert(before.contains(id));
                let i = choose|i: int| 0 <= i < before.len() && before[i] == id;
                assert(kept[i] == id);
            } else {
                assert(kept[before.len() as int] == id);
            }
        }
        if forall|i: int, j: int|
            #![trigger ids[i], ids[j]]
            0 <= i < j < ids.len() ==> ids[i] < ids[j] {
            assert forall|i: int, j: int|
                #![trigger rest[i], rest[j]]
                0 <= i < j < rest.len() implies rest[i] < rest[j] by {
                assert(ids[i] < ids[j]);
            }
            assert forall|i: int, j: int|
                #![trigger kept[i], kept[j]]
                0 <= i < j < kept.len() implies kept[i] < kept[j] by {
                assert(kept[i] == before[i]);
                if j < before.len() {
                    assert(kept[j] == before[j]);
                } else {
                    law_reachable_ids(rest, disconnected, before[i]);
                    assert(before.contains(before[i]));
                    let k = choose|k: int| 0 <= k < rest.len() && rest[k] == before[i];
                    assert(ids[k] < ids[ids.len() - 1]);
                }
            }
        }
    }
}

/// Election safety fails exactly when two nodes lead in one term.
pub proof fn law_election_safety_checked<C, M>(c: ClusterState<C, M>)
    ensures
        !one_leader_per_term(c) <==> exists|a: NodeId, b: NodeId|
            a != b && #[trigger] is_leader(c, a) && #[trigger] is_leader(c, b) && c.nodes[a].term
                == c.nodes[b].term,
{
    if !one_leader_per_term(c) {
        let (a, b) = choose|a: NodeId, b: NodeId|
            #![trigger leads(c, a), leads(c, b)]
            !(leads(c, a) && leads(c, b) && c.nodes[a].term == c.nodes[b].term ==> a == b);
        assert(is_leader(c, a) && is_leader(c, b));
    }
    if exists|a: NodeId, b: NodeId|
        a != b && #[trigger] is_leader(c, a) && #[trigger] is_leader(c, b) && c.nodes[a].term
            == c.nodes[b].term {
        let (a, b) = choose|a: NodeId, b: NodeId|
            a != b && #[trigger] is_leader(c, a) && #[trigger] is_leader(c, b) && c.nodes[a].term
                == c.nodes[b].term;
        assert(leads(c, a) && leads(c, b));
    }
}

/// Two nodes differ at an index that both have committed and hold.
pub open spec fn both_committed<C, M>(
    c: ClusterState<C, M>,
    a: NodeId,
    b: NodeId,
    k: int,
) -> bool {
    &&& c.nodes.contains_key(a)
    &&& c.nodes.contains_key(b)
    &&& 1 <= k
    &&& k <= c.nodes[a].commit_index
    &&& k <= c.nodes[b].commit_index
    &&& k <= c.nodes[a].log.len()
    &&& k <= c.nodes[b].log.len()
}

/// Agreement of what is committed fails exactly when at some index that two
/// nodes have committed the entries differ; agreement of the terms, when the
/// terms do.
pub proof fn law_agreement_checked<C, M>(c: ClusterState<C, M>)
    ensures
        !committed_entries_agree(c) <==> exists|a: NodeId, b: NodeId, k: int| #[trigger]
            both_committed(c, a, b, k) && c.nodes[a].log[k - 1] != c.nodes[b].log[k - 1],
        !committed_terms_agree(c) <==> exists|a: NodeId, b: NodeId, k: int| #[trigger]
            both_committed(c, a, b, k) && c.nodes[a].log[k - 1].term != c.nodes[b].log[k - 1].term,
{
    if !committed_entries_agree(c) {
        let (a, b, k) = choose|a: NodeId, b: NodeId, k: int|
            #![trigger committed_on(c, a, k), committed_on(c, b, k)]
            !(committed_on(c, a, k) && committed_on(c, b, k) ==> c.nodes[a].log[k - 1]
                == c.nodes[b].log[k - 1]);
        assert(both_committed(c, a, b, k));
    }
    if !committed_terms_agree(c) {
        let (a, b, k) = choose|a: NodeId, b: NodeId, k: int|
            #![trigger committed_on(c, a, k), committed_on(c, b, k)]
            !(committed_on(c, a, k) && committed_on(c, b, k) ==> c.nodes[a].log[k - 1].term
                == c.nodes[b].log[k - 1].term);
        assert(both_committed(c, a, b, k));
    }
    assert forall|a: NodeId, b: NodeId, k: int| #[trigger] both_committed(c, a, b, k) implies
        committed_on(c, a, k) && committed_on(c, b, k) by {}
}

/// Where nothing is lost, every node is still there, its term has not fallen,
/// and every entry that it had applied stands where it stood.
pub proof fn law_nothing_lost<C, M>(
    c: ClusterState<C, M>,
    d: ClusterState<C, M>,
    id: NodeId,
    k: int,
)
    requires
        nothing_lost(c, d),
    ensures
        d.nodes.contains_key(id) <==> c.nodes.contains_key(id),
        c.nodes.contains_key(id) ==> c.nodes[id].term <= d.nodes[id].term
            && c.nodes[id].last_applied <= d.nodes[id].last_applied,
        c.nodes.contains_key(id) && 1 <= k <= c.nodes[id].last_applied ==> k
            <= d.nodes[id].log.len() && d.nodes[id].log[k - 1] == c.nodes[id].log[k - 1],
{
    assert(c.nodes.dom().contains(id) == d.nodes.dom().contains(id));
}

// ---- setting up -------------------------------------------------------------------

/// The peers of a node are all the other ids, each as often as it was given
/// and in the order given; the result gives where each was.
pub proof fn law_peers(ids: Seq<NodeId>, id: NodeId) -> (places: Seq<int>)
    ensures
        places.len() == others(ids, id).len(),
        forall|i: int, j: int|
            #![trigger places[i], places[j]]
            0 <= i < j < places.len() ==> places[i] < places[j],
        forall|i: int|
            #![trigger places[i]]
            0 <= i < places.len() ==> 0 <= places[i] < ids.len() && others(ids, id)[i]
                == ids[places[i]] && ids[places[i]] != id,
        forall|k: int|
            #![trigger ids[k]]
            0 <= k < ids.len() && ids[k] != id ==> places.contains(k),
    decreases ids.len(),
{
    reveal(Seq::filter);
    if ids.len() == 0 {
        Seq::empty()
    } else {
        let rest = ids.drop_last();
        let n = ids.len() - 1;
        let before = law_peers(rest, id);
        let places = if ids.last() != id {
            before.push(n)
        } else {
            before
        };
        assert forall|i: int| #![trigger places[i]] 0 <= i < places.len() implies 0 <= places[i]
            < ids.len() && others(ids, id)[i] == ids[places[i]] && ids[places[i]] != id by {
            if i < before.len() {
                assert(places[i] == before[i]);
                assert(rest[before[i]] == ids[before[i]]);
            }
        }
        assert forall|k: int|
            #![trigger ids[k]]
            0 <= k < ids.len() && ids[k] != id implies places.contains(
            k,
        ) by {
            if k < n {
                assert(rest[k] == ids[k]);
                assert(before.contains(k));
                let i = choose|i: int| 0 <= i < before.len() && before[i] == k;
                assert(places[i] == k);
            } else {
                assert(places[before.len() as int] == k);
            }
        }
        places
    }
}

/// A cluster starts at tick zero with a fresh node and a fresh machine for
/// every id, and nothing else; every node has an empty log, no vote, the
/// others as its peers and a generator of its own; the network has one too.
pub proof fn law_cluster_start<SM: StateMachine>(
    ids: Seq<NodeId>,
    config: RaftConfig,
    net_config: NetworkConfig,
    seed: u64,
    id: NodeId,
)
    ensures
        ({
            let c = fresh_cluster::<SM>(ids, config, net_config, seed);
            &&& c.nodes.contains_key(id) <==> ids.contains(id)
            &&& c.machines.contains_key(id) <==> ids.contains(id)
            &&& ids.contains(id) ==> c.machines[id] == SM::initial()
            &&& ids.contains(id) ==> c.nodes[id] == fresh_node(
                id,
                others(ids, id),
                0,
                None,
                Seq::<LogEntry<SM::Command>>::empty(),
                seeded_generator(seed.wrapping_add(id.wrapping_mul(0x9E3779B97F4A7C15))),
                config,
            )
            &&& c.network == fresh_network::<SM::Command>(
                net_config,
                seed ^ 0xA5A5_A5A5_A5A5_A5A5,
            )
            &&& c.tick_count == 0
        }),
{
}

/// The state of a cluster is that of its nodes, its machines, its network and
/// its counter.
pub proof fn law_clusters_are_read<SM: StateMachine>(cluster: Cluster<SM>, id: NodeId)
    ensures
        cluster@.nodes.contains_key(id) <==> cluster.nodes@.contains_key(id),
        cluster.nodes@.contains_key(id) ==> cluster@.nodes[id] == cluster.nodes@[id]@,
        cluster@.machines.contains_key(id) <==> cluster.machines@.contains_key(id),
        cluster.machines@.contains_key(id) ==> cluster@.machines[id] == cluster.machines@[id]@,
        cluster@.network == cluster.network@,
        cluster@.tick_count == cluster.tick_count,
{
}

} // verus!
