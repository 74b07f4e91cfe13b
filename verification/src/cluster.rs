//! Harness: wires N [`RaftNode`]s to a simulated [`Network`] and a per-node
//! copy of a [`StateMachine`], and drives everything tick-by-tick.
//!
//! It is what lets a test say "propose this command, disconnect this node,
//! run for a while, assert every reachable node's state machine matches" in a
//! few lines, entirely deterministically: nodes take their turns in the order
//! of their ids.
//!
//! Every call keeps the cluster sound (see [`Cluster::wf`]), and soundness
//! means safety (see [`crate::cluster_laws`]): however the network behaves,
//! there is at most one leader per term, and committed entries agree
//! everywhere.

use std::collections::BTreeMap;

use vstd::pervasive::runtime_assert;
use vstd::prelude::*;
use vstd::std_specs::btree::increasing_seq;
use vstd::std_specs::cmp::OrdSpec;
use vstd::std_specs::iter::IteratorSpec;

use crate::cluster_laws::{
    law_at_most_one_leader_per_term, law_committed_entries_agree, lemma_extends_twice,
    lemma_fresh_cluster, lemma_later, lemma_network_changed, lemma_node_stepped,
    lemma_nothing_lost_at_rest, lemma_nothing_lost_twice, lemma_others, lemma_queue_sent,
    lemma_step_loses_nothing, lemma_tick_begun, no_history,
};
use crate::cluster_state::{
    after_ticks, all_applied, all_committed, all_delivered, all_known, all_sent, all_ticked,
    asks_known, cluster_proposed, cluster_ticked, committed_entries_agree, committed_on,
    committed_terms_agree, connected, delivered, first_leader, fresh_cluster, id_order, is_order_of,
    leaders_of, leads, lemma_leaders_of, lemma_order_is, lists_leaders, lowest_leader,
    machine_follows, never_asks_unknown, node_stepped, node_ticked, nothing_lost,
    one_leader_per_term, others, room_for, round_closed, sound_cluster, tick_begun, until_committed,
    until_leader, until_leader_among, world_of, ClusterState, Round,
};
use crate::node::{Committed, NotLeaderError, RaftConfig, RaftNode, RoleKind};
use crate::node_laws::Input;
use crate::protocol::{received, ticked};
use crate::rpc::{messages, Envelope, LogIndex, NodeId, Term};
use crate::safety::frame::extends;
use crate::safety::inputs::{
    lemma_can_receive, lemma_node_bounded, lemma_proposed, lemma_received, lemma_ticked,
};
use crate::safety::world::History;
use crate::sim::network::{
    all_dispatched, can_send, group_views, law_advance, Network, NetworkConfig, NetworkState,
};
use crate::state_machine::StateMachine;
use crate::storage::{clone_is_exact, MemStorage, Storage};

verus! {

/// A set of nodes, a state machine for each, and the network between them.
pub struct Cluster<SM: StateMachine> {
    pub nodes: BTreeMap<NodeId, RaftNode<SM::Command, MemStorage<SM::Command>>>,
    pub machines: BTreeMap<NodeId, SM>,
    pub network: Network<SM::Command>,
    pub tick_count: u64,
    /// Everything that has happened so far; the proofs speak of it.
    pub past: Ghost<History<SM::Command>>,
}

impl<SM: StateMachine> View for Cluster<SM> {
    type V = ClusterState<SM::Command, SM::V>;

    open spec fn view(&self) -> ClusterState<SM::Command, SM::V> {
        ClusterState {
            nodes: Map::new(
                |id: NodeId| self.nodes@.contains_key(id),
                |id: NodeId| self.nodes@[id]@,
            ),
            machines: Map::new(
                |id: NodeId| self.machines@.contains_key(id),
                |id: NodeId| self.machines@[id]@,
            ),
            network: self.network@,
            tick_count: self.tick_count,
        }
    }
}

impl<SM: StateMachine> Cluster<SM> {
    /// What has happened so far.
    pub open spec fn history(&self) -> History<SM::Command> {
        self.past@
    }

    /// How many commands leaders have taken in.
    pub open spec fn proposals(&self) -> nat {
        self.history().proposals
    }

    /// Every node is in order by itself.
    pub open spec fn nodes_wf(&self) -> bool {
        forall|id: NodeId|
            #![trigger self.nodes@[id]]
            self.nodes@.contains_key(id) ==> self.nodes@[id].wf()
    }

    /// What holds of a cluster at every step.
    pub open spec fn sound_at(&self, clock: nat) -> bool {
        &&& clone_is_exact::<SM::Command>()
        &&& self.nodes_wf()
        &&& sound_cluster::<SM>(self@, self.history(), clock)
    }

    /// What holds of a cluster between any two calls.
    pub open spec fn wf(&self) -> bool {
        self.sound_at(self@.tick_count as nat)
    }

    /// The counters have room for `n` more ticks.
    pub open spec fn has_room(&self, n: int) -> bool {
        room_for(self@, self.proposals(), n)
    }

    // ---- setting up -------------------------------------------------------------

    fn peers_of(ids: &[NodeId], id: NodeId) -> (peers: Vec<NodeId>)
        ensures
            peers@ == others(ids@, id),
    {
        let mut peers: Vec<NodeId> = Vec::new();
        let mut i: usize = 0;
        proof {
            reveal(Seq::filter);
        }
        while i < ids.len()
            invariant
                i <= ids@.len(),
                peers@ == others(ids@.take(i as int), id),
            decreases ids@.len() - i,
        {
            if ids[i] != id {
                peers.push(ids[i]);
            }
            i += 1;
            proof {
                reveal(Seq::filter);
                assert(ids@.take(i as int).drop_last() =~= ids@.take(i - 1));
            }
        }
        assert(ids@.take(i as int) =~= ids@);
        peers
    }

    pub fn new(ids: &[NodeId], config: RaftConfig, net_config: NetworkConfig, seed: u64) -> (cluster:
        Self)
        requires
            clone_is_exact::<SM::Command>(),
            config.min_election_ticks <= config.max_election_ticks,
        ensures
            cluster.wf(),
            cluster@ == fresh_cluster::<SM>(ids@, config, net_config, seed),
            cluster.proposals() == 0,
    {
        let mut nodes: BTreeMap<NodeId, RaftNode<SM::Command, MemStorage<SM::Command>>> =
            BTreeMap::new();
        let mut machines: BTreeMap<NodeId, SM> = BTreeMap::new();
        let ghost fresh = fresh_cluster::<SM>(ids@, config, net_config, seed);
        let mut i: usize = 0;
        while i < ids.len()
            invariant
                i <= ids@.len(),
                clone_is_exact::<SM::Command>(),
                config.min_election_ticks <= config.max_election_ticks,
                fresh == fresh_cluster::<SM>(ids@, config, net_config, seed),
                forall|id: NodeId|
                    #![trigger nodes@.contains_key(id)]
                    nodes@.contains_key(id) <==> ids@.take(i as int).contains(id),
                forall|id: NodeId|
                    #![trigger machines@.contains_key(id)]
                    machines@.contains_key(id) <==> ids@.take(i as int).contains(id),
                forall|id: NodeId|
                    #![trigger nodes@[id]]
                    nodes@.contains_key(id) ==> nodes@[id].wf() && nodes@[id]@
                        == fresh.nodes[id],
                forall|id: NodeId|
                    #![trigger machines@[id]]
                    machines@.contains_key(id) ==> machines@[id]@ == SM::initial(),
            decreases ids@.len() - i,
        {
            let id: NodeId = ids[i];
            let ghost seen = ids@.take(i as int);
            let peers = Self::peers_of(ids, id);
            proof {
                assert(ids@.contains(id));
                lemma_others(ids@, id);
            }
            // Distinct-but-deterministic per-node seed: mixed with a large
            // odd constant so nearby ids don't produce correlated RNG
            // streams.
            let node_seed: u64 = seed.wrapping_add(id.wrapping_mul(0x9E3779B97F4A7C15));
            let storage: MemStorage<SM::Command> = MemStorage::default();
            let node = RaftNode::new(id, peers, storage, node_seed, config);
            let machine = SM::default();
            proof {
                SM::default_is_initial(machine);
                assert(node@ == fresh.nodes[id]);
            }
            nodes.insert(id, node);
            machines.insert(id, machine);
            i += 1;
            proof {
                let now = ids@.take(i as int);
                assert(now =~= seen.push(id));
                assert forall|other: NodeId| #[trigger] now.contains(other) <==> seen.contains(
                    other,
                ) || other == id by {
                    if seen.contains(other) {
                        let j = choose|j: int| 0 <= j < seen.len() && seen[j] == other;
                        assert(now[j] == other);
                    }
                    assert(now[i - 1] == id);
                }
            }
        }
        assert(ids@.take(i as int) =~= ids@);
        let network = Network::new(net_config, seed ^ 0xA5A5_A5A5_A5A5_A5A5);
        let cluster = Cluster {
            nodes,
            machines,
            network,
            tick_count: 0,
            past: Ghost(no_history()),
        };
        proof {
            assert(cluster@ =~= fresh);
            lemma_fresh_cluster::<SM>(ids@, config, net_config, seed);
        }
        cluster
    }

    // ---- a tick -----------------------------------------------------------------

    fn apply_committed(&mut self, node_id: NodeId, committed: Vec<Committed<SM::Command>>)
        requires
            old(self)@.machines.contains_key(node_id),
        ensures
            final(self)@ == (ClusterState {
                machines: old(self)@.machines.insert(
                    node_id,
                    all_applied::<SM>(old(self)@.machines[node_id], committed@),
                ),
                ..old(self)@
            }),
            final(self).history() == old(self).history(),
            final(self).nodes_wf() == old(self).nodes_wf(),
    {
        let ghost before = self@;
        if committed.len() == 0 {
            assert(self@.machines =~= before.machines.insert(
                node_id,
                all_applied::<SM>(before.machines[node_id], committed@),
            ));
            return;
        }
        let mut machine = self.machines.remove(&node_id).unwrap();
        let ghost start = machine@;
        let mut i: usize = 0;
        while i < committed.len()
            invariant
                i <= committed@.len(),
                machine@ == all_applied::<SM>(start, committed@.take(i as int)),
            decreases committed@.len() - i,
        {
            let _ = machine.apply(&committed[i].command);
            i += 1;
            proof {
                assert(committed@.take(i as int).drop_last() =~= committed@.take(i - 1));
            }
        }
        assert(committed@.take(i as int) =~= committed@);
        self.machines.insert(node_id, machine);
        assert(self@.machines =~= before.machines.insert(
            node_id,
            all_applied::<SM>(before.machines[node_id], committed@),
        ));
        assert(self@ =~= (ClusterState { machines: self@.machines, ..before }));
    }

    /// Hand a message to the node it is addressed to.
    fn deliver(&mut self, envelope: Envelope<SM::Command>, outgoing: &mut Vec<
        Envelope<SM::Command>,
    >, Ghost(clock): Ghost<nat>)
        requires
            old(self).sound_at(clock),
            clock + old(self).proposals() < u64::MAX,
            old(self).history().sent.contains(envelope@),
            all_sent(old(self).history(), messages(old(outgoing)@)),
        ensures
            final(self).sound_at(clock),
            (Round { cluster: final(self)@, outgoing: messages(final(outgoing)@) }) == delivered::<
                SM,
            >(Round { cluster: old(self)@, outgoing: messages(old(outgoing)@) }, envelope@),
            extends(old(self).history(), final(self).history()),
            final(self).proposals() == old(self).proposals(),
            all_sent(final(self).history(), messages(final(outgoing)@)),
            nothing_lost(old(self)@, final(self)@),
    {
        let ghost before = self@;
        let ghost h = self.history();
        let ghost w = world_of(before, h, clock);
        let ghost message = envelope@;
        let ghost waiting = outgoing@;
        let id: NodeId = envelope.to;
        if !self.nodes.contains_key(&id) {
            proof {
                lemma_nothing_lost_at_rest::<SM>(before, h, clock);
            }
            return;
        }
        let mut node = self.nodes.remove(&id).unwrap();
        proof {
            assert(before.nodes.contains_key(id));
            lemma_can_receive(w, id, message);
        }
        let ghost input = Input::Receive(message);
        let ghost g = lemma_received(w, id, message);
        proof {
            lemma_node_stepped::<SM>(before, h, g, clock, id, input);
            lemma_step_loses_nothing::<SM>(before, h, g, clock, id, input);
        }
        let result = node.receive(envelope);
        self.nodes.insert(id, node);
        self.past = Ghost(g);
        let mut effects = result.effects;
        outgoing.append(&mut effects);
        assert(messages(outgoing@) =~= messages(waiting) + messages(result.effects@));
        assert(self@.nodes =~= before.nodes.insert(id, node@));
        self.apply_committed(id, result.committed);
        assert(self@ =~= node_stepped::<SM>(before, id, received(before.nodes[id], message)));
    }


    /// Let a node's timers tick.
    fn tick_node(&mut self, id: NodeId, outgoing: &mut Vec<Envelope<SM::Command>>, Ghost(
        clock,
    ): Ghost<nat>)
        requires
            old(self).sound_at(clock),
            clock + old(self).proposals() < u64::MAX,
            old(self)@.nodes.contains_key(id),
            old(self)@.nodes[id].term < clock,
            all_sent(old(self).history(), messages(old(outgoing)@)),
        ensures
            final(self).sound_at(clock),
            (Round { cluster: final(self)@, outgoing: messages(final(outgoing)@) })
                == node_ticked::<SM>(
                Round { cluster: old(self)@, outgoing: messages(old(outgoing)@) },
                id,
            ),
            extends(old(self).history(), final(self).history()),
            final(self).proposals() == old(self).proposals(),
            all_sent(final(self).history(), messages(final(outgoing)@)),
            nothing_lost(old(self)@, final(self)@),
    {
        let ghost before = self@;
        let ghost h = self.history();
        let ghost w = world_of(before, h, clock);
        let ghost waiting = outgoing@;
        let mut node = self.nodes.remove(&id).unwrap();
        let ghost input = Input::<SM::Command>::Tick;
        proof {
            lemma_node_bounded(w, id);
        }
        let ghost g = lemma_ticked(w, id);
        proof {
            lemma_node_stepped::<SM>(before, h, g, clock, id, input);
            lemma_step_loses_nothing::<SM>(before, h, g, clock, id, input);
        }
        let result = node.tick();
        self.nodes.insert(id, node);
        self.past = Ghost(g);
        let mut effects = result.effects;
        outgoing.append(&mut effects);
        assert(messages(outgoing@) =~= messages(waiting) + messages(result.effects@));
        assert(self@.nodes =~= before.nodes.insert(id, node@));
        self.apply_committed(id, result.committed);
        assert(self@ =~= node_stepped::<SM>(before, id, ticked(before.nodes[id])));
    }

    /// Hand messages to the network.
    fn send_all(&mut self, outgoing: Vec<Envelope<SM::Command>>, Ghost(clock): Ghost<nat>)
        requires
            old(self).sound_at(clock),
            can_send(old(self)@.network),
            all_sent(old(self).history(), messages(outgoing@)),
        ensures
            final(self).sound_at(clock),
            final(self)@ == round_closed(
                Round { cluster: old(self)@, outgoing: messages(outgoing@) },
            ),
            final(self).history() == old(self).history(),
            final(self)@.network.config == old(self)@.network.config,
    {
        let ghost before = self@;
        let ghost h = self.history();
        let ghost all = outgoing@;
        let ghost sent = messages(all);
        assert(sent.take(0) =~= Seq::empty());
        for envelope in envelopes: outgoing.into_iter()
            invariant
                envelopes.seq() == all,
                sent == messages(all),
                all_sent(h, sent),
                can_send(before.network),
                self.sound_at(clock),
                self.history() == h,
                self@ == (ClusterState {
                    network: all_dispatched(
                        before.network,
                        sent.take(envelopes.index() as int),
                    ),
                    ..before
                }),
                self@.network.now == before.network.now,
                self@.network.config == before.network.config,
        {
            let ghost k = envelopes.index() as int;
            let ghost c = self@;
            let ghost message = envelope@;
            assert(message == sent[k]);
            self.network.send(envelope);
            proof {
                assert(sent.take(k + 1).drop_last() =~= sent.take(k));
                assert(self@ =~= (ClusterState { network: self@.network, ..c }));
                assert(world_of(self@, h, clock) == world_of(c, h, clock));
                lemma_queue_sent(c.network, self@.network, message, h);
                assert forall|id: NodeId|
                    self@.nodes.contains_key(id) implies #[trigger] machine_follows::<SM>(
                    self@,
                    id,
                ) by {
                    assert(machine_follows::<SM>(c, id));
                }
            }
        }
        assert(sent.take(sent.len() as int) =~= sent);
    }

    /// Advance the whole cluster by one logical tick: deliver messages that
    /// are due, then let every node's timers tick, then enqueue whatever new
    /// messages that produced.
    pub fn tick(&mut self)
        requires
            old(self).wf(),
            old(self).has_room(1),
        ensures
            final(self).wf(),
            final(self)@ == cluster_ticked::<SM>(old(self)@),
            final(self)@.tick_count == old(self)@.tick_count + 1,
            final(self)@.network.config == old(self)@.network.config,
            final(self).proposals() == old(self).proposals(),
            extends(old(self).history(), final(self).history()),
            nothing_lost(old(self)@, final(self)@),
    {
        let ghost before = self@;
        let ghost h = self.history();
        let ghost earlier: nat = self.tick_count as nat;
        let ghost clock: nat = earlier + 1;
        let ghost proposals = self.proposals();
        let ghost begun = tick_begun(before).0;
        self.tick_count = self.tick_count + 1;
        let due = self.network.advance_tick();
        let mut outgoing: Vec<Envelope<SM::Command>> = Vec::new();
        let ghost all = due@;
        let ghost heard = messages(all);
        proof {
            law_advance(before.network);
            assert(self@ =~= begun.cluster);
            assert(messages(outgoing@) =~= Seq::empty());
            assert(heard.take(0) =~= Seq::empty());
            lemma_tick_begun::<SM>(before, h, earlier);
            lemma_nothing_lost_at_rest::<SM>(before, h, earlier);
        }
        for envelope in envelopes: due.into_iter()
            invariant
                envelopes.seq() == all,
                heard == messages(all),
                all_sent(h, heard),
                self.sound_at(earlier),
                earlier + proposals < u64::MAX,
                self.proposals() == proposals,
                (Round { cluster: self@, outgoing: messages(outgoing@) }) == all_delivered::<SM>(
                    begun,
                    heard.take(envelopes.index() as int),
                ),
                extends(h, self.history()),
                all_sent(self.history(), messages(outgoing@)),
                nothing_lost(before, self@),
                self@.tick_count == begun.cluster.tick_count,
                self@.network == begun.cluster.network,
        {
            let ghost k = envelopes.index() as int;
            let ghost c = self@;
            let ghost past = self.history();
            assert(envelope@ == heard[k]);
            self.deliver(envelope, &mut outgoing, Ghost(earlier));
            proof {
                assert(heard.take(k + 1).drop_last() =~= heard.take(k));
                lemma_nothing_lost_twice(before, c, self@);
                lemma_extends_twice(h, past, self.history());
            }
        }
        let ghost hushed = self@;
        proof {
            assert(heard.take(heard.len() as int) =~= heard);
            lemma_later::<SM>(hushed, self.history(), earlier, clock);
        }
        let ids = self.all_ids();
        let ghost order = ids@;
        let ghost listened = Round { cluster: hushed, outgoing: messages(outgoing@) };
        proof {
            assert(order.take(0) =~= Seq::empty());
            assert forall|j: int|
                #![trigger order[j]]
                0 <= j < order.len() implies hushed.nodes[order[j]].term
                <= earlier by {
                assert(order.contains(order[j]));
            }
        }
        for id in each: ids.into_iter()
            invariant
                each.seq() == order,
                is_order_of(order, hushed.nodes.dom()),
                self.sound_at(clock),
                clock + proposals < u64::MAX,
                clock == earlier + 1,
                self.proposals() == proposals,
                (Round { cluster: self@, outgoing: messages(outgoing@) }) == all_ticked::<SM>(
                    listened,
                    order.take(each.index() as int),
                ),
                extends(h, self.history()),
                all_sent(self.history(), messages(outgoing@)),
                nothing_lost(before, self@),
                self@.nodes.dom() == hushed.nodes.dom(),
                self@.tick_count == begun.cluster.tick_count,
                self@.network == begun.cluster.network,
                forall|j: int|
                    #![trigger order[j]]
                    each.index() <= j < order.len() ==> self@.nodes[order[j]].term <= earlier,
        {
            let ghost k = each.index() as int;
            let ghost c = self@;
            let ghost past = self.history();
            assert(id == order[k]);
            assert(order.contains(id));
            self.tick_node(id, &mut outgoing, Ghost(clock));
            proof {
                assert(order.take(k + 1).drop_last() =~= order.take(k));
                lemma_nothing_lost_twice(before, c, self@);
                lemma_extends_twice(h, past, self.history());
                assert(self@.nodes.dom() =~= c.nodes.dom());
            }
        }
        assert(order.take(order.len() as int) =~= order);
        self.send_all(outgoing, Ghost(clock));
        assert(nothing_lost(before, self@));
    }

    pub fn run_ticks(&mut self, n: u64)
        requires
            old(self).wf(),
            old(self).has_room(n as int),
        ensures
            final(self).wf(),
            final(self)@ == after_ticks::<SM>(old(self)@, n as nat),
            final(self)@.tick_count == old(self)@.tick_count + n,
            final(self)@.network.config == old(self)@.network.config,
            final(self).proposals() == old(self).proposals(),
            extends(old(self).history(), final(self).history()),
            nothing_lost(old(self)@, final(self)@),
    {
        let ghost before = self@;
        let ghost h = self.history();
        proof {
            lemma_nothing_lost_at_rest::<SM>(before, h, before.tick_count as nat);
        }
        let mut done: u64 = 0;
        while done < n
            invariant
                done <= n,
                self.wf(),
                self.has_room(n - done),
                self@ == after_ticks::<SM>(before, done as nat),
                self@.tick_count == before.tick_count + done,
                self@.network.config == before.network.config,
                self.proposals() == h.proposals,
                extends(h, self.history()),
                nothing_lost(before, self@),
            decreases n - done,
        {
            let ghost c = self@;
            let ghost past = self.history();
            self.tick();
            done += 1;
            proof {
                lemma_nothing_lost_twice(before, c, self@);
                lemma_extends_twice(h, past, self.history());
            }
        }
    }

    // ---- proposing --------------------------------------------------------------

    pub fn propose(&mut self, node_id: NodeId, command: SM::Command) -> (outcome: Result<
        LogIndex,
        NotLeaderError,
    >)
        requires
            old(self).wf(),
            old(self)@.nodes.contains_key(node_id),
            leads(old(self)@, node_id) ==> old(self).has_room(0),
        ensures
            final(self).wf(),
            match outcome {
                Ok(index) => {
                    &&& leads(old(self)@, node_id)
                    &&& index == old(self)@.nodes[node_id].log.len() + 1
                    &&& final(self)@ == cluster_proposed::<SM>(old(self)@, node_id, command)
                    &&& final(self).proposals() == old(self).proposals() + 1
                },
                Err(error) => {
                    &&& !leads(old(self)@, node_id)
                    &&& error.leader_hint == old(self)@.nodes[node_id].leader_id
                    &&& final(self)@ == old(self)@
                    &&& final(self).history() == old(self).history()
                },
            },
            final(self)@.tick_count == old(self)@.tick_count,
            final(self)@.network.config == old(self)@.network.config,
            extends(old(self).history(), final(self).history()),
            nothing_lost(old(self)@, final(self)@),
    {
        let ghost before = self@;
        let ghost h = self.history();
        let ghost clock = self.tick_count as nat;
        let ghost w = world_of(before, h, clock);
        let mut node = self.nodes.remove(&node_id).unwrap();
        proof {
            lemma_node_bounded(w, node_id);
            lemma_nothing_lost_at_rest::<SM>(before, h, clock);
        }
        let proposed = node.propose(command);
        self.nodes.insert(node_id, node);
        match proposed {
            Err(error) => {
                assert(self@ =~= before);
                Err(error)
            },
            Ok((index, result)) => {
                let ghost input = Input::Propose(command);
                let ghost g = lemma_proposed(w, node_id, command);
                proof {
                    lemma_node_stepped::<SM>(before, h, g, clock, node_id, input);
                    lemma_step_loses_nothing::<SM>(before, h, g, clock, node_id, input);
                    assert(self@.nodes =~= before.nodes.insert(node_id, node@));
                }
                self.past = Ghost(g);
                self.apply_committed(node_id, result.committed);
                self.send_all(result.effects, Ghost(clock));
                assert(nothing_lost(before, self@));
                Ok(index)
            },
        }
    }

    /// Propose to whichever node currently believes it's the leader. Useful
    /// in tests where "the" leader may have changed.
    pub fn propose_via_current_leader(&mut self, command: SM::Command) -> (index: Option<LogIndex>)
        requires
            old(self).wf(),
            lowest_leader(old(self)@) is Some ==> old(self).has_room(0),
        ensures
            final(self).wf(),
            match lowest_leader(old(self)@) {
                None => {
                    &&& index is None
                    &&& final(self)@ == old(self)@
                    &&& final(self).history() == old(self).history()
                },
                Some(leader) => {
                    &&& index == Some((old(self)@.nodes[leader].log.len() + 1) as u64)
                    &&& old(self)@.nodes[leader].log.len() < u64::MAX
                    &&& final(self)@ == cluster_proposed::<SM>(old(self)@, leader, command)
                    &&& final(self).proposals() == old(self).proposals() + 1
                },
            },
            final(self)@.tick_count == old(self)@.tick_count,
            final(self)@.network.config == old(self)@.network.config,
            extends(old(self).history(), final(self).history()),
            nothing_lost(old(self)@, final(self)@),
    {
        proof {
            lemma_nothing_lost_at_rest::<SM>(
                self@,
                self.history(),
                self@.tick_count as nat,
            );
        }
        match self.current_leader() {
            None => None,
            Some(leader) => match self.propose(leader, command) {
                Ok(index) => Some(index),
                Err(_) => None,
            },
        }
    }

    // ---- asking -----------------------------------------------------------------

    /// The ids of all nodes, in ascending order.
    pub fn all_ids(&self) -> (ids: Vec<NodeId>)
        ensures
            is_order_of(ids@, self@.nodes.dom()),
            ids@ == id_order(self@.nodes.dom()),
    {
        let mut ids: Vec<NodeId> = Vec::new();
        let ghost listed = self.nodes.keys().remaining();
        proof {
            lemma_increasing(listed);
        }
        for id in keys: self.nodes.keys()
            invariant
                keys.seq() == listed,
                ids@ =~= listed.unref().take(keys.index() as int),
        {
            ids.push(*id);
        }
        proof {
            assert(listed.unref().take(listed.len() as int) =~= listed.unref());
            assert forall|id: NodeId| #[trigger] ids@.contains(id) <==> self@.nodes.dom().contains(
                id,
            ) by {
                assert(listed.unref().to_set().contains(id) <==> self.nodes@.dom().contains(id));
            }
            lemma_order_is(ids@, self@.nodes.dom());
        }
        ids
    }

    /// The node with the lowest id among those that currently believe
    /// themselves to be leader.
    pub fn current_leader(&self) -> (leader: Option<NodeId>)
        ensures
            leader == lowest_leader(self@),
            leader matches Some(id) ==> leads(self@, id),
    {
        let ids = self.all_ids();
        self.leader_among(&ids)
    }

    /// Find a leader among a specific subset of nodes (e.g. "the nodes that
    /// are still reachable"). Unlike [`Cluster::current_leader`], this is
    /// safe to use in fault-injection scenarios: a disconnected ("crashed")
    /// node legitimately keeps believing it's still leader in its old term
    /// — that's correct Raft behavior, not a bug — so naively asking "who
    /// is *the* leader" is ambiguous while more than one node self-identifies
    /// as leader in different terms. Restricting the search to a known-alive
    /// subset removes that ambiguity.
    pub fn leader_among(&self, ids: &[NodeId]) -> (leader: Option<NodeId>)
        ensures
            leader == first_leader(self@, ids@),
            leader matches Some(id) ==> leads(self@, id) && ids@.contains(id),
    {
        let mut i: usize = 0;
        assert(ids@.skip(0) =~= ids@);
        while i < ids.len()
            invariant
                i <= ids@.len(),
                first_leader(self@, ids@) == first_leader(self@, ids@.skip(i as int)),
            decreases ids@.len() - i,
        {
            let id: NodeId = ids[i];
            if let Some(node) = self.nodes.get(&id) {
                if node.is_leader() {
                    return Some(id);
                }
            }
            assert(ids@.skip(i as int).skip(1) =~= ids@.skip(i + 1));
            i += 1;
        }
        None
    }

    /// All nodes that currently believe themselves to be leader, paired
    /// with their term. Used by [`Cluster::assert_at_most_one_leader_per_term`].
    pub fn leaders_by_term(&self) -> (leaders: Vec<(Term, NodeId)>)
        ensures
            lists_leaders(self@, leaders@),
            leaders@ == leaders_of(self@, id_order(self@.nodes.dom())),
    {
        let ids = self.all_ids();
        let mut leaders: Vec<(Term, NodeId)> = Vec::new();
        let mut i: usize = 0;
        while i < ids.len()
            invariant
                i <= ids@.len(),
                is_order_of(ids@, self@.nodes.dom()),
                leaders@ == leaders_of(self@, ids@.take(i as int)),
            decreases ids@.len() - i,
        {
            let id: NodeId = ids[i];
            assert(ids@.contains(id));
            assert(self.nodes@.contains_key(id));
            let node = self.nodes.get(&id).unwrap();
            if node.role() == RoleKind::Leader {
                leaders.push((node.current_term(), id));
            }
            i += 1;
            assert(ids@.take(i as int).drop_last() =~= ids@.take(i - 1));
        }
        proof {
            assert(ids@.take(i as int) =~= ids@);
            lemma_leaders_of(self@, ids@);
        }
        leaders
    }

    pub fn machine(&self, id: NodeId) -> (machine: &SM)
        requires
            self@.machines.contains_key(id),
        ensures
            machine@ == self@.machines[id],
    {
        self.machines.get(&id).unwrap()
    }

    pub fn commit_index(&self, id: NodeId) -> (index: LogIndex)
        requires
            self@.nodes.contains_key(id),
        ensures
            index == self@.nodes[id].commit_index,
    {
        self.nodes.get(&id).unwrap().commit_index()
    }

    /// The ids of the nodes that are not disconnected, in ascending order.
    pub fn reachable_ids(&self) -> (ids: Vec<NodeId>)
        ensures
            ids@ == connected(id_order(self@.nodes.dom()), self@.network.disconnected),
    {
        let all = self.all_ids();
        let mut ids: Vec<NodeId> = Vec::new();
        let mut i: usize = 0;
        proof {
            reveal(Seq::filter);
        }
        while i < all.len()
            invariant
                i <= all@.len(),
                ids@ == connected(all@.take(i as int), self@.network.disconnected),
            decreases all@.len() - i,
        {
            if !self.network.is_disconnected(all[i]) {
                ids.push(all[i]);
            }
            i += 1;
            proof {
                reveal(Seq::filter);
                assert(all@.take(i as int).drop_last() =~= all@.take(i - 1));
            }
        }
        assert(all@.take(i as int) =~= all@);
        ids
    }

    // ---- checking ---------------------------------------------------------------

    /// Whether there is at most one leader per term.
    pub fn at_most_one_leader_per_term(&self) -> (holds: bool)
        ensures
            holds == one_leader_per_term(self@),
    {
        let leaders = self.leaders_by_term();
        let mut i: usize = 0;
        while i < leaders.len()
            invariant
                i <= leaders@.len(),
                lists_leaders(self@, leaders@),
                forall|a: int, b: int|
                    #![trigger leaders@[a], leaders@[b]]
                    0 <= a < i && a < b < leaders@.len() ==> leaders@[a].0 != leaders@[b].0,
            decreases leaders@.len() - i,
        {
            let mut j: usize = i + 1;
            while j < leaders.len()
                invariant
                    i < j <= leaders@.len(),
                    lists_leaders(self@, leaders@),
                    forall|b: int|
                        #![trigger leaders@[b]]
                        i < b < j ==> leaders@[i as int].0 != leaders@[b].0,
                decreases leaders@.len() - j,
            {
                if leaders[i].0 == leaders[j].0 {
                    proof {
                        let a = leaders@[i as int].1;
                        let b = leaders@[j as int].1;
                        assert(leads(self@, a) && leads(self@, b) && a != b);
                    }
                    return false;
                }
                j += 1;
            }
            i += 1;
        }
        proof {
            assert forall|a: NodeId, b: NodeId|
                #![trigger leads(self@, a), leads(self@, b)]
                leads(self@, a) && leads(self@, b) && self@.nodes[a].term
                    == self@.nodes[b].term implies a == b by {
                let x = choose|x: int|
                    0 <= x < leaders@.len() && leaders@[x] == (self@.nodes[a].term, a);
                let y = choose|y: int|
                    0 <= y < leaders@.len() && leaders@[y] == (self@.nodes[b].term, b);
                if x < y {
                    assert(leaders@[x].0 != leaders@[y].0);
                } else if y < x {
                    assert(leaders@[y].0 != leaders@[x].0);
                }
            }
        }
        true
    }

    /// Core election-safety invariant: at most one leader per term, ever.
    /// Holds of every cluster; looked at once more at run time.
    pub fn assert_at_most_one_leader_per_term(&self)
        requires
            self.wf(),
        ensures
            one_leader_per_term(self@),
    {
        proof {
            law_at_most_one_leader_per_term::<SM>(
                self@,
                self.history(),
                self@.tick_count as nat,
            );
        }
        let holds = self.at_most_one_leader_per_term();
        runtime_assert(holds);
    }

    /// Whether for any index committed on two nodes the term there is the
    /// same on both.
    pub fn committed_terms_agree(&self) -> (holds: bool)
        ensures
            holds == committed_terms_agree(self@),
    {
        let ids = self.all_ids();
        // The term at each index, from the first node that has it committed.
        let mut reference: Vec<Term> = Vec::new();
        let mut i: usize = 0;
        while i < ids.len()
            invariant
                i <= ids@.len(),
                is_order_of(ids@, self@.nodes.dom()),
                refers_to(self@, ids@.take(i as int), reference@),
            decreases ids@.len() - i,
        {
            let id: NodeId = ids[i];
            assert(ids@.contains(id));
            assert(self.nodes@.contains_key(id));
            let node = self.nodes.get(&id).unwrap();
            let committed: LogIndex = node.commit_index();
            let mut seen: usize = 0;
            let ghost known = reference@;
            let ghost earlier = ids@.take(i as int);
            let ghost now = ids@.take(i + 1);
            proof {
                assert(now =~= earlier.push(id));
            }
            loop
                invariant
                    seen <= reference@.len(),
                    reference@.len() >= known.len(),
                    seen > known.len() ==> reference@.len() == seen,
                    seen <= known.len() ==> reference@ == known,
                    seen <= committed,
                    seen <= node@.log.len(),
                    committed == node@.commit_index,
                    node@ == self@.nodes[id],
                    self@.nodes.contains_key(id),
                    forall|k: int|
                        #![trigger known[k]]
                        0 <= k < known.len() ==> reference@[k] == known[k],
                    forall|k: int|
                        #![trigger reference@[k]]
                        0 <= k < seen ==> reference@[k] == node@.log[k].term,
                    refers_to(self@, earlier, known),
                ensures
                    seen == committed || seen == node@.log.len(),
                decreases node@.log.len() - seen,
            {
                if seen as u64 == committed {
                    break;
                }
                let found = node.storage().entry(seen as u64 + 1);
                match found {
                    None => {
                        break;
                    },
                    Some(entry) => {
                        if seen < reference.len() {
                            if reference[seen] != entry.term {
                                proof {
                                    let k = seen + 1;
                                    assert(reference@[k - 1] == known[k - 1]);
                                    assert(committed_among(self@, earlier, k));
                                    let j = choose|j: int|
                                        0 <= j < earlier.len() && #[trigger] committed_on(
                                            self@,
                                            earlier[j],
                                            k,
                                        );
                                    assert(committed_on(self@, id, k));
                                    assert(committed_on(self@, earlier[j], k));
                                }
                                return false;
                            }
                        } else {
                            reference.push(entry.term);
                            assert(reference.len() == seen + 1);
                        }
                    },
                }
                seen += 1;
            }
            proof {
                lemma_refers_to_one_more(self@, earlier, id, known, reference@, seen as int);
            }
            i += 1;
        }
        proof {
            assert(ids@.take(i as int) =~= ids@);
            assert forall|a: NodeId, b: NodeId, k: int|
                #![trigger committed_on(self@, a, k), committed_on(self@, b, k)]
                committed_on(self@, a, k) && committed_on(self@, b, k) implies self@.nodes[a].log[k
                - 1].term == self@.nodes[b].log[k - 1].term by {
                assert(ids@.contains(a) && ids@.contains(b));
                let x = choose|x: int| 0 <= x < ids@.len() && ids@[x] == a;
                let y = choose|y: int| 0 <= y < ids@.len() && ids@[y] == b;
                assert(committed_on(self@, ids@[x], k) && committed_on(self@, ids@[y], k));
            }
        }
        true
    }

    /// Log-matching / state-machine-safety invariant: for any index
    /// committed on two or more nodes, the (term, command) at that index
    /// must be identical everywhere it's committed. This is the general
    /// form of "a committed entry can never be lost or overwritten". Holds of
    /// every cluster; the terms are looked at once more at run time.
    pub fn assert_committed_logs_agree(&self)
        requires
            self.wf(),
        ensures
            committed_entries_agree(self@),
    {
        proof {
            law_committed_entries_agree::<SM>(
                self@,
                self.history(),
                self@.tick_count as nat,
            );
        }
        let holds = self.committed_terms_agree();
        runtime_assert(holds);
    }

    // ---- running ----------------------------------------------------------------

    /// Run ticks until some node becomes leader (or `max_ticks` elapses),
    /// checking the election-safety invariant on every tick along the way.
    pub fn run_until_leader(&mut self, max_ticks: u64) -> (leader: Option<NodeId>)
        requires
            old(self).wf(),
            old(self).has_room(max_ticks as int),
        ensures
            final(self).wf(),
            (final(self)@, leader) == until_leader::<SM>(old(self)@, max_ticks as nat),
            leader matches Some(id) ==> leads(final(self)@, id),
            old(self)@.tick_count <= final(self)@.tick_count <= old(self)@.tick_count + max_ticks,
            final(self)@.network.config == old(self)@.network.config,
            final(self).proposals() == old(self).proposals(),
            extends(old(self).history(), final(self).history()),
            nothing_lost(old(self)@, final(self)@),
    {
        let ghost before = self@;
        let ghost h = self.history();
        proof {
            lemma_nothing_lost_at_rest::<SM>(before, h, before.tick_count as nat);
        }
        let mut done: u64 = 0;
        while done < max_ticks
            invariant
                done <= max_ticks,
                before == old(self)@,
                h == old(self).history(),
                self.wf(),
                self.has_room(max_ticks - done),
                until_leader::<SM>(before, max_ticks as nat) == until_leader::<SM>(
                    self@,
                    (max_ticks - done) as nat,
                ),
                self@.tick_count == before.tick_count + done,
                self@.network.config == before.network.config,
                self.proposals() == h.proposals,
                extends(h, self.history()),
                nothing_lost(before, self@),
            decreases max_ticks - done,
        {
            let ghost c = self@;
            let ghost past = self.history();
            self.tick();
            done += 1;
            proof {
                lemma_nothing_lost_twice(before, c, self@);
                lemma_extends_twice(h, past, self.history());
            }
            self.assert_at_most_one_leader_per_term();
            if let Some(leader) = self.current_leader() {
                return Some(leader);
            }
        }
        None
    }

    /// Run ticks until some node in `ids` is leader (or `max_ticks` elapses).
    /// See [`Cluster::leader_among`] on why one asks for a subset.
    pub fn run_until_leader_among(&mut self, ids: &[NodeId], max_ticks: u64) -> (leader: Option<
        NodeId,
    >)
        requires
            old(self).wf(),
            old(self).has_room(max_ticks as int),
        ensures
            final(self).wf(),
            (final(self)@, leader) == until_leader_among::<SM>(
                old(self)@,
                ids@,
                max_ticks as nat,
            ),
            leader matches Some(id) ==> leads(final(self)@, id) && ids@.contains(id),
            old(self)@.tick_count <= final(self)@.tick_count <= old(self)@.tick_count + max_ticks,
            final(self)@.network.config == old(self)@.network.config,
            final(self).proposals() == old(self).proposals(),
            extends(old(self).history(), final(self).history()),
            nothing_lost(old(self)@, final(self)@),
    {
        let ghost before = self@;
        let ghost h = self.history();
        proof {
            lemma_nothing_lost_at_rest::<SM>(before, h, before.tick_count as nat);
        }
        let mut done: u64 = 0;
        while done < max_ticks
            invariant
                done <= max_ticks,
                before == old(self)@,
                h == old(self).history(),
                self.wf(),
                self.has_room(max_ticks - done),
                until_leader_among::<SM>(before, ids@, max_ticks as nat)
                    == until_leader_among::<SM>(self@, ids@, (max_ticks - done) as nat),
                self@.tick_count == before.tick_count + done,
                self@.network.config == before.network.config,
                self.proposals() == h.proposals,
                extends(h, self.history()),
                nothing_lost(before, self@),
            decreases max_ticks - done,
        {
            let ghost c = self@;
            let ghost past = self.history();
            self.tick();
            done += 1;
            proof {
                lemma_nothing_lost_twice(before, c, self@);
                lemma_extends_twice(h, past, self.history());
            }
            if let Some(leader) = self.leader_among(ids) {
                return Some(leader);
            }
        }
        None
    }

    /// Run ticks until every node in `ids` has caught its commit_index up to
    /// at least `target`, or `max_ticks` elapses. Returns whether it
    /// succeeded. Checks both safety invariants on every tick.
    pub fn run_until_committed(&mut self, ids: &[NodeId], target: LogIndex, max_ticks: u64) -> (reached:
        bool)
        requires
            old(self).wf(),
            old(self).has_room(max_ticks as int),
            all_known(old(self)@, ids@) || never_asks_unknown::<SM>(
                old(self)@,
                ids@,
                target,
                max_ticks as nat,
            ),
        ensures
            final(self).wf(),
            (final(self)@, reached) == until_committed::<SM>(
                old(self)@,
                ids@,
                target,
                max_ticks as nat,
            ),
            reached ==> all_committed(final(self)@, ids@, target),
            old(self)@.tick_count <= final(self)@.tick_count <= old(self)@.tick_count + max_ticks,
            final(self)@.network.config == old(self)@.network.config,
            final(self).proposals() == old(self).proposals(),
            extends(old(self).history(), final(self).history()),
            nothing_lost(old(self)@, final(self)@),
    {
        let ghost before = self@;
        let ghost h = self.history();
        proof {
            lemma_nothing_lost_at_rest::<SM>(before, h, before.tick_count as nat);
        }
        let mut done: u64 = 0;
        while done < max_ticks
            invariant
                done <= max_ticks,
                before == old(self)@,
                h == old(self).history(),
                self.wf(),
                self.has_room(max_ticks - done),
                all_known(self@, ids@) || never_asks_unknown::<SM>(
                    self@,
                    ids@,
                    target,
                    (max_ticks - done) as nat,
                ),
                until_committed::<SM>(before, ids@, target, max_ticks as nat) == until_committed::<SM>(
                    self@,
                    ids@,
                    target,
                    (max_ticks - done) as nat,
                ),
                self@.tick_count == before.tick_count + done,
                self@.network.config == before.network.config,
                self.proposals() == h.proposals,
                extends(h, self.history()),
                nothing_lost(before, self@),
            decreases max_ticks - done,
        {
            let ghost c = self@;
            let ghost past = self.history();
            self.tick();
            done += 1;
            proof {
                lemma_nothing_lost_twice(before, c, self@);
                lemma_extends_twice(h, past, self.history());
            }
            self.assert_at_most_one_leader_per_term();
            self.assert_committed_logs_agree();
            if self.have_committed(ids, target) {
                return true;
            }
        }
        false
    }

    /// Whether every node in `ids` has caught its commit_index up to `target`.
    fn have_committed(&self, ids: &[NodeId], target: LogIndex) -> (all: bool)
        requires
            asks_known(self@, ids@, target),
        ensures
            all == all_committed(self@, ids@, target),
    {
        let mut i: usize = 0;
        while i < ids.len()
            invariant
                i <= ids@.len(),
                asks_known(self@, ids@, target),
                all_committed(self@, ids@.take(i as int), target),
            decreases ids@.len() - i,
        {
            let id: NodeId = ids[i];
            assert(self@.nodes.contains_key(ids@[i as int]));
            if self.commit_index(id) < target {
                assert(self@.nodes[ids@[i as int]].commit_index < target);
                return false;
            }
            proof {
                let now = ids@.take(i + 1);
                assert forall|j: int|
                    #![trigger now[j]]
                    0 <= j < now.len() implies self@.nodes[now[j]].commit_index
                    >= target by {
                    if j < i {
                        assert(now[j] == ids@.take(i as int)[j]);
                    }
                }
            }
            i += 1;
        }
        assert(ids@.take(i as int) =~= ids@);
        true
    }

    // ---- faults -----------------------------------------------------------------

    pub fn disconnect(&mut self, id: NodeId)
        requires
            old(self).wf(),
        ensures
            final(self).wf(),
            final(self)@ == (ClusterState {
                network: NetworkState {
                    disconnected: old(self)@.network.disconnected.insert(id),
                    ..old(self)@.network
                },
                ..old(self)@
            }),
            final(self).history() == old(self).history(),
    {
        let ghost before = self@;
        self.network.disconnect(id);
        proof {
            lemma_network_changed::<SM>(
                before,
                self.history(),
                before.tick_count as nat,
                before.network.partition,
                before.network.disconnected.insert(id),
            );
        }
    }

    pub fn reconnect(&mut self, id: NodeId)
        requires
            old(self).wf(),
        ensures
            final(self).wf(),
            final(self)@ == (ClusterState {
                network: NetworkState {
                    disconnected: old(self)@.network.disconnected.remove(id),
                    ..old(self)@.network
                },
                ..old(self)@
            }),
            final(self).history() == old(self).history(),
    {
        let ghost before = self@;
        self.network.reconnect(id);
        proof {
            lemma_network_changed::<SM>(
                before,
                self.history(),
                before.tick_count as nat,
                before.network.partition,
                before.network.disconnected.remove(id),
            );
        }
    }

    pub fn partition(&mut self, groups: Vec<Vec<NodeId>>)
        requires
            old(self).wf(),
        ensures
            final(self).wf(),
            final(self)@ == (ClusterState {
                network: NetworkState {
                    partition: Some(group_views(groups@)),
                    ..old(self)@.network
                },
                ..old(self)@
            }),
            final(self).history() == old(self).history(),
    {
        let ghost before = self@;
        self.network.set_partition(groups);
        proof {
            lemma_network_changed::<SM>(
                before,
                self.history(),
                before.tick_count as nat,
                Some(group_views(groups@)),
                before.network.disconnected,
            );
        }
    }

    pub fn heal_partition(&mut self)
        requires
            old(self).wf(),
        ensures
            final(self).wf(),
            final(self)@ == (ClusterState {
                network: NetworkState { partition: None, ..old(self)@.network },
                ..old(self)@
            }),
            final(self).history() == old(self).history(),
    {
        let ghost before = self@;
        self.network.heal_partition();
        proof {
            lemma_network_changed::<SM>(
                before,
                self.history(),
                before.tick_count as nat,
                None,
                before.network.disconnected,
            );
        }
    }
}

// ---- lists ------------------------------------------------------------------------

/// The terms of what is committed on these nodes, by index.
spec fn refers_to<C, M>(c: ClusterState<C, M>, ids: Seq<NodeId>, reference: Seq<Term>) -> bool {
    &&& forall|i: int, k: int|
        #![trigger committed_on(c, ids[i], k)]
        0 <= i < ids.len() && committed_on(c, ids[i], k) ==> k <= reference.len() && reference[k - 1]
            == c.nodes[ids[i]].log[k - 1].term
    &&& forall|k: int| 1 <= k <= reference.len() ==> #[trigger] committed_among(c, ids, k)
}

/// Index `k` is committed on one of these nodes.
spec fn committed_among<C, M>(c: ClusterState<C, M>, ids: Seq<NodeId>, k: int) -> bool {
    exists|i: int| 0 <= i < ids.len() && #[trigger] committed_on(c, ids[i], k)
}

/// One more node is taken into account.
proof fn lemma_refers_to_one_more<C, M>(
    c: ClusterState<C, M>,
    ids: Seq<NodeId>,
    id: NodeId,
    known: Seq<Term>,
    reference: Seq<Term>,
    seen: int,
)
    requires
        refers_to(c, ids, known),
        c.nodes.contains_key(id),
        0 <= seen <= c.nodes[id].commit_index,
        seen <= c.nodes[id].log.len(),
        seen == c.nodes[id].commit_index || seen == c.nodes[id].log.len(),
        seen > known.len() ==> reference.len() == seen,
        seen <= known.len() ==> reference == known,
        forall|k: int| #![trigger known[k]] 0 <= k < known.len() ==> reference[k] == known[k],
        forall|k: int|
            #![trigger reference[k]]
            0 <= k < seen ==> reference[k] == c.nodes[id].log[k].term,
    ensures
        refers_to(c, ids.push(id), reference),
{
    let all = ids.push(id);
    assert forall|i: int, k: int|
        #![trigger committed_on(c, all[i], k)]
        0 <= i < all.len() && committed_on(c, all[i], k) implies k <= reference.len() && reference[k
        - 1] == c.nodes[all[i]].log[k - 1].term by {
        if i < ids.len() {
            assert(committed_on(c, ids[i], k));
            assert(reference[k - 1] == known[k - 1]);
        }
    }
    assert forall|k: int| 1 <= k <= reference.len() implies #[trigger] committed_among(c, all, k) by {
        if k <= known.len() {
            assert(committed_among(c, ids, k));
            let i = choose|i: int| 0 <= i < ids.len() && #[trigger] committed_on(c, ids[i], k);
            assert(committed_on(c, all[i], k));
        } else {
            assert(committed_on(c, all[ids.len() as int], k));
        }
    }
}

/// What is in ascending order by the standard order of references is so by
/// the numbers referred to.
proof fn lemma_increasing(keys: Seq<&NodeId>)
    requires
        increasing_seq(keys),
    ensures
        forall|i: int, j: int|
            #![trigger keys[i], keys[j]]
            0 <= i < j < keys.len() ==> *keys[i] < *keys[j],
{
    broadcast use vstd::laws_eq::group_laws_eq;
    broadcast use vstd::laws_cmp::group_laws_cmp;
    reveal(vstd::laws_eq::obeys_eq_spec_properties);
    reveal(vstd::laws_cmp::obeys_partial_cmp_spec_properties);
    reveal(vstd::laws_cmp::obeys_cmp_partial_ord);
    reveal(vstd::laws_cmp::obeys_cmp_ord);
    assert(vstd::laws_cmp::obeys_cmp::<&NodeId>());
    vstd::std_specs::btree::axiom_increasing_seq_meaning(keys);
    assert forall|i: int, j: int|
        #![trigger keys[i], keys[j]]
        0 <= i < j < keys.len() implies *keys[i] < *keys[j] by {
        assert(OrdSpec::cmp_spec(&keys[i], &keys[j]) is Less);
    }
}

} // verus!
