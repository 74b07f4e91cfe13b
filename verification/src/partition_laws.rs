//! What a cut through a cluster keeps apart.
//!
//! As long as nothing flows between a group of nodes and the rest, what a
//! leader in the group takes in stays in the group; and if the group is no
//! majority, it is not committed.

use vstd::prelude::*;

use crate::cluster_laws::{
    law_committed_entries_are_on_a_majority, lemma_extends_twice, lemma_later, lemma_node_stepped,
    staged, Action,
};
use crate::cluster_state::{
    after_ticks, all_delivered, all_sent, all_ticked, cluster_proposed, cluster_ticked,
    committed_on, delivered, id_order, leads, lemma_order_exists, machine_follows, node_stepped,
    node_ticked, round_closed, safe_cluster, tick_begun, world_of, ClusterState, Round,
};
use crate::node_laws::{lemma_divergence, outcome, Input};
use crate::protocol::{
    append_request, appended, candidacy, divergence, in_office, proposed, reply_noted, NodeState,
};
use crate::rpc::{LogIndex, Message, NodeId, Payload};
use crate::safety::frame::{extends, reign_grows};
use crate::safety::inputs::{
    leads_to, lemma_node_bounded, lemma_proposed, lemma_received, lemma_ticked, moved,
};
use crate::safety::world::{
    agree, grounded, leads_rightly, message_ok, node_ok, reign_ok, safe, History, World,
};
use crate::sim::network::{
    disjoint, law_messages_stay_within_a_group, lemma_advanced_queue, lemma_dispatched_queue,
    reachable, NetworkState,
};
use crate::state_machine::StateMachine;
use crate::storage::{prefix_before, LogCommand, LogEntry};

verus! {

/// No message flows between the group and the rest.
pub open spec fn is_cut<C>(s: NetworkState<C>, group: Set<NodeId>) -> bool {
    forall|a: NodeId, b: NodeId|
        #![trigger reachable(s, a, b)]
        group.contains(a) != group.contains(b) ==> !reachable(s, a, b)
}

/// A group of a partition into disjoint groups is cut off from the rest.
pub proof fn law_groups_are_cut<C>(s: NetworkState<C>, groups: Seq<Seq<NodeId>>, i: int)
    requires
        s.partition == Some(groups),
        disjoint(groups),
        0 <= i < groups.len(),
    ensures
        is_cut(s, groups[i].to_set()),
{
    let group = groups[i].to_set();
    assert forall|a: NodeId, b: NodeId|
        #![trigger reachable(s, a, b)]
        group.contains(a) != group.contains(b) implies !reachable(s, a, b) by {
        law_messages_stay_within_a_group(s, a, b);
        if reachable(s, a, b) {
            let j = choose|j: int|
                0 <= j < groups.len() && (#[trigger] groups[j]).contains(a) && groups[j].contains(
                    b,
                );
            let inside = if group.contains(a) {
                a
            } else {
                b
            };
            assert(groups[i].contains(inside) && groups[j].contains(inside));
        }
    }
}

/// The message carries the entry.
pub open spec fn carries<C>(m: Message<C>, e: LogEntry<C>) -> bool {
    m.payload matches Payload::AppendEntries(args) && args.entries.contains(e)
}

/// The entry was written by the leader of its term.
pub open spec fn minted<C>(h: History<C>, e: LogEntry<C>) -> bool {
    h.reigns.contains_key(e.term) && h.reigns[e.term].log.contains(e)
}

/// Whatever stands in a log was written by the leader of its term.
pub proof fn law_held_entries_are_minted<SM: StateMachine>(
    c: ClusterState<SM::Command, SM::V>,
    history: History<SM::Command>,
    clock: nat,
    id: NodeId,
    e: LogEntry<SM::Command>,
)
    requires
        safe_cluster::<SM>(c, history, clock),
        c.nodes.contains_key(id),
        c.nodes[id].log.contains(e),
    ensures
        minted(history, e),
{
    let log = c.nodes[id].log;
    assert(node_ok(world_of(c, history, clock), id));
    let k = choose|k: int| 0 <= k < log.len() && log[k] == e;
    assert(agree(log, history.reigns[log[k].term].log, k + 1));
    assert(history.reigns[e.term].log[k] == e);
}

/// No node outside the group holds the entry, and nothing that one of them
/// has under way carries it.
pub open spec fn confined<C, M>(
    c: ClusterState<C, M>,
    group: Set<NodeId>,
    e: LogEntry<C>,
) -> bool {
    &&& forall|id: NodeId|
        #![trigger c.nodes[id]]
        c.nodes.contains_key(id) && !group.contains(id) ==> !c.nodes[id].log.contains(e)
    &&& forall|i: int|
        #![trigger c.network.queue[i]]
        0 <= i < c.network.queue.len() && !group.contains(c.network.queue[i].message.from)
            ==> !carries(c.network.queue[i].message, e)
}

/// None of these messages brings the entry out of the group.
pub open spec fn stays_in<C>(
    messages: Seq<Message<C>>,
    group: Set<NodeId>,
    e: LogEntry<C>,
) -> bool {
    forall|i: int|
        #![trigger messages[i]]
        0 <= i < messages.len() && !group.contains(messages[i].from) ==> !carries(messages[i], e)
}

/// None of these messages brings the entry to a node outside the group.
pub open spec fn spares<C>(messages: Seq<Message<C>>, group: Set<NodeId>, e: LogEntry<C>) -> bool {
    forall|i: int|
        #![trigger messages[i]]
        0 <= i < messages.len() && !group.contains(messages[i].to) ==> !carries(messages[i], e)
}

// ---- a step -----------------------------------------------------------------------

proof fn lemma_minted_stays<C>(h: History<C>, g: History<C>, e: LogEntry<C>)
    requires
        minted(h, e),
        extends(h, g),
    ensures
        minted(g, e),
{
    assert(reign_grows(h, g, e.term));
    let a = h.reigns[e.term].log;
    let b = g.reigns[e.term].log;
    let j = choose|j: int| 0 <= j < a.len() && a[j] == e;
    assert(b[j] == a[j]);
}

/// A leader sends only what stands in its log.
proof fn lemma_request_is_held<C>(
    s: NodeState<C>,
    next_index: Map<NodeId, LogIndex>,
    peer: NodeId,
    e: LogEntry<C>,
)
    requires
        carries(append_request(s, next_index, peer), e),
    ensures
        s.log.contains(e),
{
    let next: int = if next_index.contains_key(peer) {
        next_index[peer] as int
    } else {
        1
    };
    let m = append_request(s, next_index, peer);
    let entries = m.payload->AppendEntries_0.entries;
    let j = choose|j: int| 0 <= j < entries.len() && entries[j] == e;
    assert(s.log[next - 1 + j] == e);
}

/// What a node sends comes from itself and carries only what stands in its
/// log.
proof fn lemma_effects_are_held<C>(s: NodeState<C>, input: Input<C>, i: int)
    requires
        0 <= i < outcome(s, input).1.effects.len(),
    ensures
        outcome(s, input).1.effects[i].from == s.id,
        forall|e: LogEntry<C>| #[trigger]
            carries(outcome(s, input).1.effects[i], e) ==> outcome(s, input).0.log.contains(e),
{
    let (t, step) = outcome(s, input);
    let m = step.effects[i];
    assert forall|e: LogEntry<C>| #[trigger] carries(m, e) implies t.log.contains(e) by {
        lemma_carried_is_held(s, input, i, e);
    }
}

proof fn lemma_carried_is_held<C>(s: NodeState<C>, input: Input<C>, i: int, e: LogEntry<C>)
    requires
        0 <= i < outcome(s, input).1.effects.len(),
        carries(outcome(s, input).1.effects[i], e),
    ensures
        outcome(s, input).0.log.contains(e),
{
    let (t, step) = outcome(s, input);
    let sender = match input {
        Input::Tick => if s.standing is Leader {
            NodeState { heartbeat_elapsed: 0, ..s }
        } else {
            appended(
                in_office(candidacy(s)),
                LogCommand::NoOp,
            )
        },
        Input::Propose(command) => appended(s, LogCommand::Command(command)),
        Input::Receive(message) => match message.payload {
            Payload::RequestVoteReply(reply) => appended(
                in_office(
                    NodeState { votes: s.votes.insert(reply.voter), ..s },
                ),
                LogCommand::NoOp,
            ),
            Payload::AppendEntriesReply(reply) => NodeState {
                standing: reply_noted(
                    s,
                    s.standing->Leader_next_index,
                    s.standing->Leader_match_index,
                    reply,
                ),
                ..s
            },
            _ => s,
        },
    };
    let next_index = sender.standing->Leader_next_index;
    lemma_request_is_held(sender, next_index, step.effects[i].to, e);
}

/// An entry that was minted comes into a log only with a message.
proof fn lemma_entry_is_received<C>(
    w: World<C>,
    n: NodeId,
    input: Input<C>,
    g: History<C>,
    e: LogEntry<C>,
)
    requires
        safe(w),
        w.ids.contains(n),
        leads_to(w, n, outcome(w.nodes[n], input), g),
        input is Tick ==> w.nodes[n].term < u64::MAX,
        minted(w.history, e),
        !w.nodes[n].log.contains(e),
        input matches Input::Receive(m) ==> !carries(m, e),
    ensures
        !outcome(w.nodes[n], input).0.log.contains(e),
{
    let s = w.nodes[n];
    let t = outcome(s, input).0;
    let v = moved(w, n, t, g);
    assert(node_ok(w, n));
    assert(node_ok(v, n));
    assert(reign_ok(w, e.term));
    if t.log.contains(e) {
        let j = choose|j: int| 0 <= j < t.log.len() && t.log[j] == e;
        if t.log == s.log {
            assert(s.log.contains(e));
        } else if let Input::Receive(Message { payload: Payload::AppendEntries(args), .. }) = input {
            let prev = args.prev_log_index as int;
            let d = divergence(s.log, prev, args.entries, 0);
            lemma_divergence(s.log, prev, args.entries, 0);
            let kept = prefix_before(s.log, prev + 1 + d);
            if j < kept.len() {
                assert(kept[j] == s.log[j]);
                assert(s.log.contains(e));
            } else {
                assert(args.entries.skip(d)[j - kept.len()] == e);
                assert(args.entries[d + j - kept.len()] == e);
                assert(args.entries.contains(e));
            }
        } else {
            // The node wrote an entry of its own: it leads, and the entry is
            // of its term.
            assert(t.standing is Leader);
            assert(t.log == s.log.push(t.log.last()));
            assert(t.log.last().term == t.term);
            if j < s.log.len() {
                assert(s.log[j] == e);
                assert(s.log.contains(e));
            }
            assert(leads_rightly(w, n));
            assert(leads_rightly(v, n));
            assert(reign_grows(w.history, g, e.term));
            assert(w.history.reigns[e.term].leader == n);
        }
    }
}

/// A step of a node lets nothing out.
proof fn lemma_step_confined<SM: StateMachine>(
    r: Round<SM::Command, SM::V>,
    h: History<SM::Command>,
    g: History<SM::Command>,
    clock: nat,
    id: NodeId,
    input: Input<SM::Command>,
    group: Set<NodeId>,
    e: LogEntry<SM::Command>,
)
    requires
        safe_cluster::<SM>(r.cluster, h, clock),
        r.cluster.nodes.contains_key(id),
        leads_to(world_of(r.cluster, h, clock), id, outcome(r.cluster.nodes[id], input), g),
        input is Tick ==> r.cluster.nodes[id].term < u64::MAX,
        minted(h, e),
        confined(r.cluster, group, e),
        stays_in(r.outgoing, group, e),
        input matches Input::Receive(m) ==> !group.contains(id) ==> !carries(m, e),
    ensures
        confined(
            node_stepped::<SM>(r.cluster, id, outcome(r.cluster.nodes[id], input)),
            group,
            e,
        ),
        stays_in(r.outgoing + outcome(r.cluster.nodes[id], input).1.effects, group, e),
{
    let c = r.cluster;
    let w = world_of(c, h, clock);
    let (t, step) = outcome(c.nodes[id], input);
    let d = node_stepped::<SM>(c, id, (t, step));
    let all = r.outgoing + step.effects;
    assert(node_ok(w, id));
    if !group.contains(id) {
        assert(!c.nodes[id].log.contains(e));
        lemma_entry_is_received(w, id, input, g, e);
    }
    assert forall|i: int|
        #![trigger all[i]]
        0 <= i < all.len() && !group.contains(all[i].from) implies !carries(all[i], e) by {
        if i < r.outgoing.len() {
            assert(all[i] == r.outgoing[i]);
        } else {
            let k = i - r.outgoing.len();
            assert(all[i] == step.effects[k]);
            lemma_effects_are_held(c.nodes[id], input, k);
        }
    }
}

// ---- the phases of a tick ---------------------------------------------------------

proof fn lemma_all_sent_joined<C>(
    g: History<C>,
    a: Seq<Message<C>>,
    b: Seq<Message<C>>,
)
    requires
        all_sent(g, a),
        all_sent(g, b),
    ensures
        all_sent(g, a + b),
{
    let all = a + b;
    assert forall|i: int| #![trigger all[i]] 0 <= i < all.len() implies g.sent.contains(all[i]) by {
        if i < a.len() {
            assert(all[i] == a[i]);
        } else {
            assert(all[i] == b[i - a.len()]);
        }
    }
}

proof fn lemma_all_sent_grows<C>(h: History<C>, g: History<C>, messages: Seq<Message<C>>)
    requires
        all_sent(h, messages),
        extends(h, g),
    ensures
        all_sent(g, messages),
{
}

/// Delivery keeps the cluster safe and lets nothing out.
proof fn lemma_deliveries_confined<SM: StateMachine>(
    r: Round<SM::Command, SM::V>,
    due: Seq<Message<SM::Command>>,
    h: History<SM::Command>,
    clock: nat,
    group: Set<NodeId>,
    e: LogEntry<SM::Command>,
) -> (g: History<SM::Command>)
    requires
        safe_cluster::<SM>(r.cluster, h, clock),
        clock + h.proposals < u64::MAX,
        all_sent(h, due),
        all_sent(h, r.outgoing),
        minted(h, e),
        confined(r.cluster, group, e),
        stays_in(r.outgoing, group, e),
        spares(due, group, e),
    ensures
        ({
            let q = all_delivered::<SM>(r, due);
            &&& safe_cluster::<SM>(q.cluster, g, clock)
            &&& all_sent(g, q.outgoing)
            &&& confined(q.cluster, group, e)
            &&& stays_in(q.outgoing, group, e)
            &&& q.cluster.network == r.cluster.network
            &&& q.cluster.tick_count == r.cluster.tick_count
            &&& q.cluster.nodes.dom() == r.cluster.nodes.dom()
        }),
        extends(h, g),
        g.proposals == h.proposals,
    decreases due.len(),
{
    if due.len() == 0 {
        h
    } else {
        let rest = due.drop_last();
        let m = due.last();
        let f = lemma_deliveries_confined::<SM>(r, rest, h, clock, group, e);
        let q = all_delivered::<SM>(r, rest);
        let c = q.cluster;
        let w = world_of(c, f, clock);
        assert(due[due.len() - 1] == m);
        if c.nodes.contains_key(m.to) {
            let g = lemma_received(w, m.to, m);
            let input = Input::Receive(m);
            lemma_minted_stays(h, f, e);
            lemma_node_stepped::<SM>(c, f, g, clock, m.to, input);
            lemma_step_confined::<SM>(q, f, g, clock, m.to, input, group, e);
            lemma_all_sent_grows(f, g, q.outgoing);
            lemma_all_sent_joined(g, q.outgoing, outcome(c.nodes[m.to], input).1.effects);
            lemma_extends_twice(h, f, g);
            assert(delivered::<SM>(q, m).cluster.nodes.dom() =~= c.nodes.dom());
            g
        } else {
            f
        }
    }
}

/// The ticking of timers keeps the cluster safe and lets nothing out.
proof fn lemma_timers_confined<SM: StateMachine>(
    r: Round<SM::Command, SM::V>,
    ids: Seq<NodeId>,
    h: History<SM::Command>,
    clock: nat,
    group: Set<NodeId>,
    e: LogEntry<SM::Command>,
) -> (g: History<SM::Command>)
    requires
        safe_cluster::<SM>(r.cluster, h, clock),
        clock + h.proposals < u64::MAX,
        all_sent(h, r.outgoing),
        minted(h, e),
        confined(r.cluster, group, e),
        stays_in(r.outgoing, group, e),
        forall|i: int, j: int| #![trigger ids[i], ids[j]] 0 <= i < j < ids.len() ==> ids[i] < ids[j],
        forall|i: int|
            #![trigger ids[i]]
            0 <= i < ids.len() ==> r.cluster.nodes.contains_key(ids[i])
                && r.cluster.nodes[ids[i]].term < clock,
    ensures
        ({
            let q = all_ticked::<SM>(r, ids);
            &&& safe_cluster::<SM>(q.cluster, g, clock)
            &&& all_sent(g, q.outgoing)
            &&& confined(q.cluster, group, e)
            &&& stays_in(q.outgoing, group, e)
            &&& q.cluster.network == r.cluster.network
            &&& q.cluster.tick_count == r.cluster.tick_count
            &&& q.cluster.nodes.dom() == r.cluster.nodes.dom()
            &&& forall|id: NodeId|
                !ids.contains(id) ==> #[trigger] q.cluster.nodes[id] == r.cluster.nodes[id]
        }),
        extends(h, g),
        g.proposals == h.proposals,
    decreases ids.len(),
{
    if ids.len() == 0 {
        h
    } else {
        let rest = ids.drop_last();
        let id = ids.last();
        assert forall|i: int, j: int|
            #![trigger rest[i], rest[j]]
            0 <= i < j < rest.len() implies rest[i] < rest[j] by {
            assert(ids[i] < ids[j]);
        }
        assert forall|i: int|
            #![trigger rest[i]]
            0 <= i < rest.len() implies r.cluster.nodes.contains_key(
            rest[i],
        ) && r.cluster.nodes[rest[i]].term < clock by {
            assert(rest[i] == ids[i]);
        }
        let f = lemma_timers_confined::<SM>(r, rest, h, clock, group, e);
        let q = all_ticked::<SM>(r, rest);
        let c = q.cluster;
        let w = world_of(c, f, clock);
        assert(ids[ids.len() - 1] == id);
        assert(!rest.contains(id)) by {
            if rest.contains(id) {
                let i = choose|i: int| 0 <= i < rest.len() && rest[i] == id;
                assert(ids[i] < ids[ids.len() - 1]);
            }
        }
        assert(c.nodes[id] == r.cluster.nodes[id]);
        let g = lemma_ticked(w, id);
        let input = Input::Tick;
        lemma_minted_stays(h, f, e);
        lemma_node_stepped::<SM>(c, f, g, clock, id, input);
        lemma_step_confined::<SM>(q, f, g, clock, id, input, group, e);
        lemma_all_sent_grows(f, g, q.outgoing);
        lemma_all_sent_joined(g, q.outgoing, outcome(c.nodes[id], input).1.effects);
        lemma_extends_twice(h, f, g);
        let p = node_ticked::<SM>(q, id);
        assert(p.cluster.nodes.dom() =~= c.nodes.dom());
        assert forall|other: NodeId| !ids.contains(other) implies #[trigger] p.cluster.nodes[other]
            == r.cluster.nodes[other] by {
            assert(ids.contains(id));
            assert(!rest.contains(other)) by {
                if rest.contains(other) {
                    let i = choose|i: int| 0 <= i < rest.len() && rest[i] == other;
                    assert(ids[i] == other);
                }
            }
            assert(c.nodes[other] == r.cluster.nodes[other]);
        }
        g
    }
}

/// Handing messages to the network keeps the cluster safe and lets nothing
/// out.
proof fn lemma_dispatch_confined<SM: StateMachine>(
    c: ClusterState<SM::Command, SM::V>,
    sent: Seq<Message<SM::Command>>,
    h: History<SM::Command>,
    clock: nat,
    group: Set<NodeId>,
    e: LogEntry<SM::Command>,
)
    requires
        safe_cluster::<SM>(c, h, clock),
        all_sent(h, sent),
        confined(c, group, e),
        stays_in(sent, group, e),
    ensures
        ({
            let d = round_closed(Round { cluster: c, outgoing: sent });
            &&& safe_cluster::<SM>(d, h, clock)
            &&& confined(d, group, e)
            &&& d.network.partition == c.network.partition
            &&& d.network.disconnected == c.network.disconnected
        }),
    decreases sent.len(),
{
    let d = round_closed(Round { cluster: c, outgoing: sent });
    if sent.len() > 0 {
        let rest = sent.drop_last();
        let m = sent.last();
        assert(sent[sent.len() - 1] == m);
        lemma_dispatch_confined::<SM>(c, rest, h, clock, group, e);
        let b = round_closed(Round { cluster: c, outgoing: rest });
        lemma_dispatched_queue(b.network, m);
        assert forall|i: int|
            #![trigger d.network.queue[i]]
            0 <= i < d.network.queue.len() implies h.sent.contains(d.network.queue[i].message) && (
        !group.contains(d.network.queue[i].message.from) ==> !carries(
            d.network.queue[i].message,
            e,
        )) by {
            let flight = d.network.queue[i];
            if b.network.queue.contains(flight) {
                let j = choose|j: int|
                    0 <= j < b.network.queue.len() && b.network.queue[j] == flight;
                assert(h.sent.contains(b.network.queue[j].message));
            }
        }
        assert(world_of(d, h, clock) == world_of(c, h, clock));
        assert forall|id: NodeId| d.nodes.contains_key(id) implies #[trigger] machine_follows::<SM>(
            d,
            id,
        ) by {
            assert(machine_follows::<SM>(c, id));
        }
    } else {
        assert(d =~= c);
    }
}

/// A tick keeps the cluster safe, and an entry confined to a group that is cut
/// off stays confined to it.
pub proof fn law_ticks_keep_entries_confined<SM: StateMachine>(
    c: ClusterState<SM::Command, SM::V>,
    h: History<SM::Command>,
    group: Set<NodeId>,
    e: LogEntry<SM::Command>,
) -> (g: History<SM::Command>)
    requires
        safe_cluster::<SM>(c, h, c.tick_count as nat),
        c.tick_count + 1 + h.proposals < u64::MAX,
        is_cut(c.network, group),
        minted(h, e),
        confined(c, group, e),
    ensures
        ({
            let d = cluster_ticked::<SM>(c);
            &&& safe_cluster::<SM>(d, g, d.tick_count as nat)
            &&& confined(d, group, e)
            &&& d.tick_count == c.tick_count + 1
            &&& d.nodes.dom() == c.nodes.dom()
            &&& d.network.partition == c.network.partition
            &&& d.network.disconnected == c.network.disconnected
        }),
        extends(h, g),
        g.proposals == h.proposals,
        minted(g, e),
{
    let earlier = c.tick_count as nat;
    let clock = earlier + 1;
    let (begun, due) = tick_begun(c);
    let b = begun.cluster;
    lemma_advanced_queue(c.network);
    assert(world_of(b, h, earlier) == world_of(c, h, earlier));
    assert forall|id: NodeId| b.nodes.contains_key(id) implies #[trigger] machine_follows::<SM>(
        b,
        id,
    ) by {
        assert(machine_follows::<SM>(c, id));
    }
    assert forall|i: int|
        #![trigger b.network.queue[i]]
        0 <= i < b.network.queue.len() implies h.sent.contains(b.network.queue[i].message) && (
    !group.contains(b.network.queue[i].message.from) ==> !carries(
        b.network.queue[i].message,
        e,
    )) by {
        let flight = b.network.queue[i];
        assert(c.network.queue.contains(flight));
        let j = choose|j: int| 0 <= j < c.network.queue.len() && c.network.queue[j] == flight;
        assert(h.sent.contains(c.network.queue[j].message));
    }
    assert forall|i: int| #![trigger due[i]] 0 <= i < due.len() implies h.sent.contains(due[i]) && (
    !group.contains(due[i].to) ==> !carries(due[i], e)) by {
        let j = choose|j: int|
            0 <= j < c.network.queue.len() && (#[trigger] c.network.queue[j]).message == due[i];
        assert(h.sent.contains(c.network.queue[j].message));
        assert(reachable(c.network, due[i].from, due[i].to));
    }
    let f = lemma_deliveries_confined::<SM>(begun, due, h, earlier, group, e);
    lemma_minted_stays(h, f, e);
    let heard = all_delivered::<SM>(begun, due);
    lemma_later::<SM>(heard.cluster, f, earlier, clock);
    let order = id_order(heard.cluster.nodes.dom());
    lemma_order_exists(heard.cluster.nodes.dom());
    assert forall|i: int|
        #![trigger order[i]]
        0 <= i < order.len() implies heard.cluster.nodes.contains_key(
        order[i],
    ) && heard.cluster.nodes[order[i]].term < clock by {
        assert(order.contains(order[i]));
    }
    let g = lemma_timers_confined::<SM>(heard, order, f, clock, group, e);
    let done = all_ticked::<SM>(heard, order);
    lemma_dispatch_confined::<SM>(done.cluster, done.outgoing, g, clock, group, e);
    lemma_extends_twice(h, f, g);
    lemma_minted_stays(f, g, e);
    g
}

// ---- proposals --------------------------------------------------------------------

/// A leader takes in a command: the cluster stays safe, and an entry confined
/// to a group stays confined to it.
proof fn lemma_proposal_confined<SM: StateMachine>(
    c: ClusterState<SM::Command, SM::V>,
    h: History<SM::Command>,
    id: NodeId,
    command: SM::Command,
    group: Set<NodeId>,
    e: LogEntry<SM::Command>,
) -> (g: History<SM::Command>)
    requires
        safe_cluster::<SM>(c, h, c.tick_count as nat),
        c.tick_count + h.proposals < u64::MAX,
        leads(c, id),
        confined(c, group, e),
        minted(h, e) || group.contains(id),
    ensures
        ({
            let d = cluster_proposed::<SM>(c, id, command);
            &&& safe_cluster::<SM>(d, g, d.tick_count as nat)
            &&& confined(d, group, e)
            &&& d.tick_count == c.tick_count
            &&& d.nodes.dom() == c.nodes.dom()
            &&& d.network.partition == c.network.partition
            &&& d.network.disconnected == c.network.disconnected
        }),
        leads_to(
            world_of(c, h, c.tick_count as nat),
            id,
            proposed(c.nodes[id], command),
            g,
        ),
        extends(h, g),
        g.proposals == h.proposals + 1,
        minted(h, e) ==> minted(g, e),
{
    let clock = c.tick_count as nat;
    let w = world_of(c, h, clock);
    let g = lemma_proposed(w, id, command);
    let input = Input::Propose(command);
    let (t, step) = outcome(c.nodes[id], input);
    let b = node_stepped::<SM>(c, id, (t, step));
    lemma_node_stepped::<SM>(c, h, g, clock, id, input);
    assert(node_ok(w, id));
    if minted(h, e) {
        lemma_minted_stays(h, g, e);
        let r = Round { cluster: c, outgoing: Seq::empty() };
        lemma_step_confined::<SM>(r, h, g, clock, id, input, group, e);
        assert(r.outgoing + step.effects =~= step.effects);
    } else {
        assert forall|i: int|
            #![trigger step.effects[i]]
            0 <= i < step.effects.len() implies group.contains(step.effects[i].from) by {
            lemma_effects_are_held(c.nodes[id], input, i);
        }
    }
    assert(b.nodes.dom() =~= c.nodes.dom());
    lemma_dispatch_confined::<SM>(b, step.effects, g, clock, group, e);
    g
}

/// The entry that a leader makes of a command.
pub open spec fn entry_of<C>(s: NodeState<C>, command: C) -> LogEntry<C> {
    LogEntry {
        term: s.term,
        index: (s.log.len() + 1) as u64,
        command: LogCommand::Command(command),
    }
}

/// No log that any leader ever had holds an entry of a leader's term beyond
/// that leader's log.
proof fn lemma_entry_is_new<C>(
    w: World<C>,
    leader: NodeId,
    log: Seq<LogEntry<C>>,
    e: LogEntry<C>,
)
    requires
        safe(w),
        w.ids.contains(leader),
        w.nodes[leader].standing is Leader,
        grounded(w.history, log),
        e.term == w.nodes[leader].term,
        e.index == w.nodes[leader].log.len() + 1,
    ensures
        !log.contains(e),
{
    let s = w.nodes[leader];
    assert(node_ok(w, leader));
    assert(leads_rightly(w, leader));
    if log.contains(e) {
        let k = choose|k: int| 0 <= k < log.len() && log[k] == e;
        assert(agree(log, w.history.reigns[e.term].log, k + 1));
        assert(s.log[k] == e);
    }
}

/// What a leader in a group takes in is at first confined to the group.
pub proof fn law_proposals_start_confined<SM: StateMachine>(
    c: ClusterState<SM::Command, SM::V>,
    h: History<SM::Command>,
    id: NodeId,
    command: SM::Command,
    group: Set<NodeId>,
) -> (g: History<SM::Command>)
    requires
        safe_cluster::<SM>(c, h, c.tick_count as nat),
        c.tick_count + h.proposals < u64::MAX,
        leads(c, id),
        group.contains(id),
    ensures
        ({
            let d = cluster_proposed::<SM>(c, id, command);
            let e = entry_of(c.nodes[id], command);
            &&& safe_cluster::<SM>(d, g, d.tick_count as nat)
            &&& confined(d, group, e)
            &&& minted(g, e)
            &&& d.nodes[id].log == c.nodes[id].log.push(e)
            &&& d.tick_count == c.tick_count
            &&& d.nodes.dom() == c.nodes.dom()
            &&& d.network.partition == c.network.partition
            &&& d.network.disconnected == c.network.disconnected
        }),
        extends(h, g),
        g.proposals == h.proposals + 1,
{
    let clock = c.tick_count as nat;
    let w = world_of(c, h, clock);
    let s = c.nodes[id];
    let e = entry_of(s, command);
    lemma_node_bounded(w, id);
    assert forall|n: NodeId|
        #![trigger c.nodes[n]]
        c.nodes.contains_key(n) implies !c.nodes[n].log.contains(
        e,
    ) by {
        assert(node_ok(w, n));
        lemma_entry_is_new(w, id, c.nodes[n].log, e);
    }
    assert forall|i: int|
        #![trigger c.network.queue[i]]
        0 <= i < c.network.queue.len() implies !carries(c.network.queue[i].message, e) by {
        let m = c.network.queue[i].message;
        assert(message_ok(w, m));
        if let Payload::AppendEntries(args) = m.payload {
            let log = h.reigns[args.term].log;
            assert(reign_ok(w, args.term));
            lemma_entry_is_new(w, id, log, e);
            if args.entries.contains(e) {
                let j = choose|j: int| 0 <= j < args.entries.len() && args.entries[j] == e;
                assert(log[args.prev_log_index + j] == e);
            }
        }
    }
    let g = lemma_proposal_confined::<SM>(c, h, id, command, group, e);
    let t = proposed(s, command).0;
    let v = moved(w, id, t, g);
    assert(node_ok(v, id));
    assert(leads_rightly(v, id));
    assert(t.log[s.log.len() as int] == e);
    g
}

// ---- what a minority cannot do ----------------------------------------------------

/// No more than half of the nodes are in the group.
pub open spec fn is_minority<C, M>(c: ClusterState<C, M>, group: Set<NodeId>) -> bool {
    c.nodes.dom().intersect(group).len() * 2 <= c.nodes.dom().len()
}

/// An entry confined to a minority is not committed, on any node.
pub proof fn law_a_minority_commits_nothing<SM: StateMachine>(
    c: ClusterState<SM::Command, SM::V>,
    history: History<SM::Command>,
    clock: nat,
    group: Set<NodeId>,
    e: LogEntry<SM::Command>,
)
    requires
        safe_cluster::<SM>(c, history, clock),
        confined(c, group, e),
        is_minority(c, group),
    ensures
        forall|id: NodeId, k: int| #[trigger]
            committed_on(c, id, k) ==> c.nodes[id].log[k - 1] != e,
{
    assert forall|id: NodeId, k: int| #[trigger] committed_on(c, id, k) implies c.nodes[id].log[k
        - 1] != e by {
        let holders = law_committed_entries_are_on_a_majority::<SM>(c, history, clock, id);
        let all = c.nodes.dom();
        let inside = all.intersect(group);
        if c.nodes[id].log[k - 1] == e {
            assert forall|m: NodeId| holders.contains(m) implies #[trigger] inside.contains(m) by {
                if !group.contains(m) {
                    let log = c.nodes[m].log;
                    assert(log[k - 1] == e);
                    assert(log.contains(e));
                }
            }
            vstd::set_lib::lemma_len_subset(holders, inside);
        }
    }
}

/// What a leader takes in while it is cut off with a minority is committed on
/// no node, whatever happens, as long as the cut stands: ticks, proposals to
/// any node, crashes, and changes of the partition elsewhere.
pub proof fn law_minority_proposals_are_not_committed<SM: StateMachine>(
    c: ClusterState<SM::Command, SM::V>,
    h: History<SM::Command>,
    id: NodeId,
    command: SM::Command,
    group: Set<NodeId>,
    actions: Seq<Action<SM::Command>>,
)
    requires
        safe_cluster::<SM>(c, h, c.tick_count as nat),
        leads(c, id),
        group.contains(id),
        is_minority(c, group),
        c.tick_count + h.proposals + 1 + actions.len() < u64::MAX,
        cut_throughout::<SM>(cluster_proposed::<SM>(c, id, command), actions, group),
    ensures
        ({
            let d = staged::<SM>(cluster_proposed::<SM>(c, id, command), actions).0;
            let e = entry_of(c.nodes[id], command);
            &&& confined(d, group, e)
            &&& forall|n: NodeId, k: int| #[trigger]
                committed_on(d, n, k) ==> d.nodes[n].log[k - 1] != e
        }),
{
    let e = entry_of(c.nodes[id], command);
    let begun = cluster_proposed::<SM>(c, id, command);
    let f = law_proposals_start_confined::<SM>(c, h, id, command, group);
    let g = lemma_staged_confined::<SM>(begun, f, actions, group, e);
    let d = staged::<SM>(begun, actions).0;
    law_a_minority_commits_nothing::<SM>(d, g, d.tick_count as nat, group, e);
}

/// While a partition into disjoint groups stands, what a leader in a group
/// that is no majority takes in is committed on no node, however many ticks
/// go by. In particular, as long as the leader keeps the entry, its own commit
/// index stays below it.
pub proof fn law_minority_proposals_wait<SM: StateMachine>(
    c: ClusterState<SM::Command, SM::V>,
    h: History<SM::Command>,
    id: NodeId,
    command: SM::Command,
    groups: Seq<Seq<NodeId>>,
    i: int,
    n: nat,
)
    requires
        safe_cluster::<SM>(c, h, c.tick_count as nat),
        leads(c, id),
        c.network.partition == Some(groups),
        disjoint(groups),
        0 <= i < groups.len(),
        groups[i].contains(id),
        is_minority(c, groups[i].to_set()),
        c.tick_count + h.proposals + 1 + n < u64::MAX,
    ensures
        ({
            let d = after_ticks::<SM>(cluster_proposed::<SM>(c, id, command), n);
            let e = entry_of(c.nodes[id], command);
            &&& confined(d, groups[i].to_set(), e)
            &&& forall|m: NodeId, k: int| #[trigger]
                committed_on(d, m, k) ==> d.nodes[m].log[k - 1] != e
            &&& d.nodes[id].log.contains(e) ==> d.nodes[id].commit_index <= c.nodes[id].log.len()
        }),
{
    let group = groups[i].to_set();
    let e = entry_of(c.nodes[id], command);
    let begun = cluster_proposed::<SM>(c, id, command);
    law_groups_are_cut(c.network, groups, i);
    let f = law_proposals_start_confined::<SM>(c, h, id, command, group);
    lemma_cut_stays(c.network, begun.network, group);
    let g = lemma_ticks_confined::<SM>(begun, f, group, e, n);
    let d = after_ticks::<SM>(begun, n);
    law_a_minority_commits_nothing::<SM>(d, g, d.tick_count as nat, group, e);
    lemma_node_bounded(world_of(c, h, c.tick_count as nat), id);
    if d.nodes[id].log.contains(e) {
        let log = d.nodes[id].log;
        let k = choose|k: int| 0 <= k < log.len() && log[k] == e;
        assert(node_ok(world_of(d, g, d.tick_count as nat), id));
        assert(log[k].index == k + 1);
        if d.nodes[id].commit_index >= k + 1 {
            assert(committed_on(d, id, k + 1));
        }
    }
}

proof fn lemma_cut_stays<C>(s: NetworkState<C>, t: NetworkState<C>, group: Set<NodeId>)
    requires
        is_cut(s, group),
        t.partition == s.partition,
        t.disconnected == s.disconnected,
    ensures
        is_cut(t, group),
{
    assert forall|a: NodeId, b: NodeId|
        #![trigger reachable(t, a, b)]
        group.contains(a) != group.contains(b) implies !reachable(t, a, b) by {
        assert(!reachable(s, a, b));
    }
}

proof fn lemma_ticks_confined<SM: StateMachine>(
    c: ClusterState<SM::Command, SM::V>,
    h: History<SM::Command>,
    group: Set<NodeId>,
    e: LogEntry<SM::Command>,
    n: nat,
) -> (g: History<SM::Command>)
    requires
        safe_cluster::<SM>(c, h, c.tick_count as nat),
        c.tick_count + h.proposals + n < u64::MAX,
        is_cut(c.network, group),
        minted(h, e),
        confined(c, group, e),
    ensures
        ({
            let d = after_ticks::<SM>(c, n);
            &&& safe_cluster::<SM>(d, g, d.tick_count as nat)
            &&& confined(d, group, e)
            &&& d.nodes.dom() == c.nodes.dom()
            &&& d.tick_count == c.tick_count + n
            &&& is_cut(d.network, group)
        }),
        g.proposals == h.proposals,
        minted(g, e),
    decreases n,
{
    if n == 0 {
        h
    } else {
        let before = (n - 1) as nat;
        let f = lemma_ticks_confined::<SM>(c, h, group, e, before);
        let b = after_ticks::<SM>(c, before);
        let g = law_ticks_keep_entries_confined::<SM>(b, f, group, e);
        lemma_cut_stays(b.network, cluster_ticked::<SM>(b).network, group);
        g
    }
}

/// The group is cut off before and after each of the actions.
pub open spec fn cut_throughout<SM: StateMachine>(
    c: ClusterState<SM::Command, SM::V>,
    actions: Seq<Action<SM::Command>>,
    group: Set<NodeId>,
) -> bool {
    forall|k: int|
        0 <= k <= actions.len() ==> #[trigger] is_cut(
            staged::<SM>(c, actions.take(k)).0.network,
            group,
        )
}

proof fn lemma_staged_confined<SM: StateMachine>(
    c: ClusterState<SM::Command, SM::V>,
    h: History<SM::Command>,
    actions: Seq<Action<SM::Command>>,
    group: Set<NodeId>,
    e: LogEntry<SM::Command>,
) -> (g: History<SM::Command>)
    requires
        safe_cluster::<SM>(c, h, c.tick_count as nat),
        c.tick_count + h.proposals + actions.len() < u64::MAX,
        cut_throughout::<SM>(c, actions, group),
        minted(h, e),
        confined(c, group, e),
    ensures
        ({
            let d = staged::<SM>(c, actions).0;
            &&& safe_cluster::<SM>(d, g, d.tick_count as nat)
            &&& confined(d, group, e)
            &&& d.nodes.dom() == c.nodes.dom()
            &&& d.tick_count + g.proposals <= c.tick_count + h.proposals + actions.len()
        }),
        minted(g, e),
    decreases actions.len(),
{
    if actions.len() == 0 {
        h
    } else {
        let n = actions.len() - 1;
        let rest = actions.drop_last();
        assert(rest =~= actions.take(n));
        assert forall|k: int| 0 <= k <= rest.len() implies #[trigger] is_cut(
            staged::<SM>(c, rest.take(k)).0.network,
            group,
        ) by {
            assert(rest.take(k) =~= actions.take(k));
            assert(is_cut(staged::<SM>(c, actions.take(k)).0.network, group));
        }
        let f = lemma_staged_confined::<SM>(c, h, rest, group, e);
        let b = staged::<SM>(c, rest).0;
        assert(is_cut(staged::<SM>(c, actions.take(n)).0.network, group));
        let d = staged::<SM>(c, actions).0;
        match actions.last() {
            Action::Tick => law_ticks_keep_entries_confined::<SM>(b, f, group, e),
            Action::Propose(id, command) => if leads(b, id) {
                lemma_proposal_confined::<SM>(b, f, id, command, group, e)
            } else {
                f
            },
            _ => {
                assert(world_of(d, f, d.tick_count as nat) == world_of(b, f, b.tick_count as nat));
                assert forall|id: NodeId| d.nodes.contains_key(id) implies #[trigger] machine_follows::<
                    SM,
                >(d, id) by {
                    assert(machine_follows::<SM>(b, id));
                }
                f
            },
        }
    }
}

} // verus!
