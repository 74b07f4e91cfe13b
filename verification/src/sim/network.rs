//! A deterministic, in-memory, discrete-event network simulator.
//!
//! **Honest scope, up front**: this is not a real network. There are no
//! sockets, no TCP, no gRPC, no serialization. Messages are Rust values
//! moved through a queue ordered by a logical delivery tick. This is a
//! deliberate choice, not a shortcut taken to avoid work — it is the
//! standard way serious Raft test suites (e.g. MIT 6.824/6.5840's Go
//! labs, and the network model in the TLA+ Raft spec) get *deterministic,
//! reproducible* coverage of timing-sensitive scenarios like "the leader
//! crashes right as a quorum acknowledges an entry".
//!
//! Determinism is achieved by seeding every random choice (message latency,
//! message drop, per-node election timeout jitter) from an explicit `u64`
//! seed. Given the same seed and the same sequence of driver calls
//! (`tick`, `propose`, `disconnect`, `partition`, ...), the simulation is
//! bit-for-bit reproducible.

use std::collections::HashSet;

use vstd::prelude::*;

use rand::distributions::Bernoulli;
use rand::rngs::StdRng;

use crate::random::{
    chance_draw, draw_chance, draw_in_range, generator_from_seed, range_draw, seeded_generator,
};
use crate::rpc::{messages, Envelope, Message, NodeId};

verus! {

#[derive(Debug, Clone, Copy)]
pub struct NetworkConfig {
    pub min_latency_ticks: u64,
    pub max_latency_ticks: u64,
    /// The chance that an otherwise-reachable message is silently dropped
    /// (simulates packet loss, distinct from partitions); `None` is no
    /// chance at all.
    pub drop_probability: Option<Bernoulli>,
}

impl Default for NetworkConfig {
    fn default() -> (config: Self)
        ensures
            config == (NetworkConfig {
                min_latency_ticks: 1,
                max_latency_ticks: 3,
                drop_probability: None,
            }),
    {
        NetworkConfig { min_latency_ticks: 1, max_latency_ticks: 3, drop_probability: None }
    }
}

// ---- what a network does ----------------------------------------------------------

/// A message on its way.
#[verifier::ext_equal]
pub struct Flight<C> {
    pub deliver_at: u64,
    pub message: Message<C>,
}

/// Everything a network's behaviour depends on. The queue stands in order of
/// delivery; messages for the same tick stand in the order they were sent.
#[verifier::ext_equal]
pub struct NetworkState<C> {
    pub config: NetworkConfig,
    pub rng: StdRng,
    pub now: u64,
    pub queue: Seq<Flight<C>>,
    /// If `Some`, only messages between nodes in the same inner group are
    /// delivered.
    pub partition: Option<Seq<Seq<NodeId>>>,
    pub disconnected: Set<NodeId>,
}

pub open spec fn fresh_network<C>(config: NetworkConfig, seed: u64) -> NetworkState<C> {
    NetworkState {
        config,
        rng: seeded_generator(seed),
        now: 0,
        queue: Seq::empty(),
        partition: None,
        disconnected: Set::empty(),
    }
}

/// `id` is in group `i` and in none before.
pub open spec fn is_group_of(groups: Seq<Seq<NodeId>>, id: NodeId, i: int) -> bool {
    &&& 0 <= i < groups.len()
    &&& groups[i].contains(id)
    &&& forall|j: int| #![trigger groups[j]] 0 <= j < i ==> !groups[j].contains(id)
}

/// The first group that `id` is in.
pub open spec fn group_of(groups: Seq<Seq<NodeId>>, id: NodeId) -> Option<int> {
    if exists|i: int| is_group_of(groups, id, i) {
        Some(choose|i: int| is_group_of(groups, id, i))
    } else {
        None
    }
}

/// Messages flow from one node to another: neither is disconnected, and no
/// partition lies between them.
pub open spec fn reachable<C>(s: NetworkState<C>, from: NodeId, to: NodeId) -> bool {
    &&& !s.disconnected.contains(from)
    &&& !s.disconnected.contains(to)
    &&& match s.partition {
        None => true,
        Some(groups) => group_of(groups, from) is Some && group_of(groups, from) == group_of(
            groups,
            to,
        ),
    }
}

/// How many messages at the front of the queue are due by a tick.
pub open spec fn due_by<C>(queue: Seq<Flight<C>>, tick: u64) -> nat
    decreases queue.len(),
{
    if queue.len() > 0 && queue[0].deliver_at <= tick {
        due_by(queue.skip(1), tick) + 1
    } else {
        0
    }
}

/// Whether chance drops the message, and the generator afterwards.
pub open spec fn drop_draw(rng: StdRng, chance: Option<Bernoulli>) -> (bool, StdRng) {
    match chance {
        None => (false, rng),
        Some(chance) => chance_draw(rng, chance),
    }
}

/// The latency drawn, and the generator afterwards.
pub open spec fn latency_draw(rng: StdRng, config: NetworkConfig) -> (u64, StdRng) {
    if config.max_latency_ticks > config.min_latency_ticks {
        range_draw(rng, config.min_latency_ticks, config.max_latency_ticks)
    } else {
        (config.min_latency_ticks, rng)
    }
}

/// The tick at which a message with this latency arrives: at least one tick
/// from now.
pub open spec fn arrival(now: u64, latency: u64) -> int {
    now + (if latency < 1 {
        1
    } else {
        latency as int
    })
}

/// A message joins the queue, to arrive after `latency` ticks: behind
/// everything that arrives no later.
pub open spec fn scheduled<C>(
    s: NetworkState<C>,
    message: Message<C>,
    latency: u64,
) -> NetworkState<C> {
    let deliver_at = arrival(s.now, latency) as u64;
    NetworkState {
        queue: s.queue.insert(
            due_by(s.queue, deliver_at) as int,
            Flight { deliver_at, message },
        ),
        ..s
    }
}

/// A message is handed to the network.
pub open spec fn dispatched<C>(s: NetworkState<C>, message: Message<C>) -> NetworkState<C> {
    if !reachable(s, message.from, message.to) {
        s
    } else {
        let (dropped, rng) = drop_draw(s.rng, s.config.drop_probability);
        if dropped {
            NetworkState { rng, ..s }
        } else {
            let (latency, rng) = latency_draw(rng, s.config);
            scheduled(NetworkState { rng, ..s }, message, latency)
        }
    }
}

/// Messages are handed to the network one after the other.
pub open spec fn all_dispatched<C>(s: NetworkState<C>, sent: Seq<Message<C>>) -> NetworkState<C>
    decreases sent.len(),
{
    if sent.len() == 0 {
        s
    } else {
        dispatched(all_dispatched(s, sent.drop_last()), sent.last())
    }
}

/// The messages among these whose link is open, in order.
pub open spec fn passing<C>(s: NetworkState<C>, flights: Seq<Flight<C>>) -> Seq<Message<C>>
    decreases flights.len(),
{
    if flights.len() == 0 {
        Seq::empty()
    } else {
        let before = passing(s, flights.drop_last());
        let message = flights.last().message;
        if reachable(s, message.from, message.to) {
            before.push(message)
        } else {
            before
        }
    }
}

/// One tick passes: what is due leaves the queue, and what can still be
/// delivered is.
pub open spec fn advanced<C>(s: NetworkState<C>) -> (NetworkState<C>, Seq<Message<C>>) {
    let now = (s.now + 1) as u64;
    let due = due_by(s.queue, now) as int;
    (
        NetworkState { now, queue: s.queue.skip(due), ..s },
        passing(s, s.queue.take(due)),
    )
}

/// The queue is in order of delivery, and nothing in it is overdue.
pub open spec fn sound_network<C>(s: NetworkState<C>) -> bool {
    &&& forall|i: int, j: int|
        #![trigger s.queue[i], s.queue[j]]
        0 <= i <= j < s.queue.len() ==> s.queue[i].deliver_at <= s.queue[j].deliver_at
    &&& forall|i: int| #![trigger s.queue[i]] 0 <= i < s.queue.len() ==> s.queue[i].deliver_at > s.now
}

/// The longest that a message may take.
pub open spec fn longest_latency(config: NetworkConfig) -> int {
    let longest = if config.max_latency_ticks > config.min_latency_ticks {
        config.max_latency_ticks
    } else {
        config.min_latency_ticks
    };
    if longest < 1 {
        1
    } else {
        longest as int
    }
}

/// The shortest that a message may take.
pub open spec fn shortest_latency(config: NetworkConfig) -> int {
    if config.min_latency_ticks < 1 {
        1
    } else {
        config.min_latency_ticks as int
    }
}

/// The tick at which a message sent now arrives exists.
pub open spec fn can_send<C>(s: NetworkState<C>) -> bool {
    s.now + longest_latency(s.config) <= u64::MAX
}

// ---- laws -------------------------------------------------------------------------

/// Everything at the front that is due arrives by the tick, and what comes next
/// does not.
pub proof fn lemma_due_by<C>(queue: Seq<Flight<C>>, tick: u64)
    ensures
        due_by(queue, tick) <= queue.len(),
        forall|i: int|
            #![trigger queue[i]]
            0 <= i < due_by(queue, tick) ==> queue[i].deliver_at <= tick,
        due_by(queue, tick) < queue.len() ==> queue[due_by(queue, tick) as int].deliver_at > tick,
    decreases queue.len(),
{
    if queue.len() > 0 && queue[0].deliver_at <= tick {
        let rest = queue.skip(1);
        lemma_due_by(rest, tick);
        assert forall|i: int|
            #![trigger queue[i]]
            0 <= i < due_by(queue, tick) implies queue[i].deliver_at <= tick by {
            if i > 0 {
                assert(queue[i] == rest[i - 1]);
            }
        }
        if due_by(queue, tick) < queue.len() {
            assert(queue[due_by(queue, tick) as int] == rest[due_by(rest, tick) as int]);
        }
    }
}

/// The number at the front that is due is where the first later message
/// stands.
proof fn lemma_due_by_is<C>(queue: Seq<Flight<C>>, tick: u64, n: int)
    requires
        0 <= n <= queue.len(),
        forall|i: int| #![trigger queue[i]] 0 <= i < n ==> queue[i].deliver_at <= tick,
        n < queue.len() ==> queue[n].deliver_at > tick,
    ensures
        due_by(queue, tick) == n,
{
    lemma_due_by(queue, tick);
    let d = due_by(queue, tick) as int;
    if d < n {
        assert(queue[d].deliver_at <= tick);
    } else if n < d {
        assert(queue[n].deliver_at <= tick);
    }
}

/// The network takes the message in: its link is open, and chance does not
/// drop it.
pub open spec fn takes_in<C>(s: NetworkState<C>, m: Message<C>) -> bool {
    reachable(s, m.from, m.to) && !drop_draw(s.rng, s.config.drop_probability).0
}

/// The message joined the queue at place `at`, to arrive at `deliver_at`.
/// Everything that was in the queue stays; what arrives no later stands
/// before it, what arrives later stands behind it.
pub open spec fn stands_at<C>(
    s: NetworkState<C>,
    t: NetworkState<C>,
    m: Message<C>,
    at: int,
    deliver_at: u64,
) -> bool {
    &&& 0 <= at <= s.queue.len()
    &&& t.queue == s.queue.insert(at, Flight { deliver_at, message: m })
    &&& forall|i: int| #![trigger s.queue[i]] 0 <= i < at ==> s.queue[i].deliver_at <= deliver_at
    &&& forall|i: int|
        #![trigger s.queue[i]]
        at <= i < s.queue.len() ==> s.queue[i].deliver_at > deliver_at
}

/// The message joined the queue, to arrive no sooner than the shortest
/// latency and no later than the longest allows.
pub open spec fn joined<C>(
    s: NetworkState<C>,
    t: NetworkState<C>,
    m: Message<C>,
    at: int,
    deliver_at: u64,
) -> bool {
    &&& stands_at(s, t, m, at, deliver_at)
    &&& s.now + shortest_latency(s.config) <= deliver_at <= s.now + longest_latency(s.config)
}

/// The queue after a message was handed over: the message joined it if the
/// network takes it in; else nothing changed.
pub open spec fn queue_extended<C>(s: NetworkState<C>, t: NetworkState<C>, m: Message<C>) -> bool {
    if takes_in(s, m) {
        exists|at: int, deliver_at: u64| joined(s, t, m, at, deliver_at)
    } else {
        t.queue == s.queue
    }
}

/// Joining keeps the queue in order: what arrives no later stands before the
/// message, what arrives later stands behind it.
pub proof fn lemma_scheduled<C>(s: NetworkState<C>, message: Message<C>, latency: u64)
    requires
        sound_network(s),
        arrival(s.now, latency) <= u64::MAX,
    ensures
        sound_network(scheduled(s, message, latency)),
        stands_at(
            s,
            scheduled(s, message, latency),
            message,
            due_by(s.queue, arrival(s.now, latency) as u64) as int,
            arrival(s.now, latency) as u64,
        ),
{
    let t = scheduled(s, message, latency);
    let deliver_at = arrival(s.now, latency) as u64;
    let at = due_by(s.queue, deliver_at) as int;
    lemma_due_by(s.queue, deliver_at);
    assert forall|i: int|
        #![trigger s.queue[i]]
        at <= i < s.queue.len() implies s.queue[i].deliver_at > deliver_at by {
        assert(s.queue[at].deliver_at <= s.queue[i].deliver_at);
    }
    let origin = |i: int|
        if i < at {
            i
        } else {
            i - 1
        };
    assert forall|i: int| 0 <= i < t.queue.len() && i != at implies #[trigger] t.queue[i]
        == s.queue[origin(i)] by {}
    assert forall|i: int, j: int|
        #![trigger t.queue[i], t.queue[j]]
        0 <= i <= j < t.queue.len() implies t.queue[i].deliver_at <= t.queue[j].deliver_at by {
        if i == at && j > at {
            assert(s.queue[at].deliver_at <= s.queue[j - 1].deliver_at);
        } else if i < at && j == at {
            assert(s.queue[i].deliver_at <= deliver_at);
        } else if i != at && j != at {
            assert(s.queue[origin(i)].deliver_at <= s.queue[origin(j)].deliver_at);
        }
    }
    assert forall|i: int| #![trigger t.queue[i]] 0 <= i < t.queue.len() implies t.queue[i].deliver_at
        > t.now by {
        if i != at {
            assert(s.queue[origin(i)].deliver_at > s.now);
        }
    }
}

/// Whatever is in the queue after a message was handed over was there before,
/// or is that message.
pub proof fn lemma_dispatched_queue<C>(s: NetworkState<C>, message: Message<C>)
    ensures
        forall|i: int|
            #![trigger dispatched(s, message).queue[i]]
            0 <= i < dispatched(s, message).queue.len() ==> s.queue.contains(
                dispatched(s, message).queue[i],
            ) || dispatched(s, message).queue[i].message == message,
{
    let t = dispatched(s, message);
    let latency = latency_draw(drop_draw(s.rng, s.config.drop_probability).1, s.config).0;
    let deliver_at = arrival(s.now, latency) as u64;
    let at = due_by(s.queue, deliver_at) as int;
    lemma_due_by(s.queue, deliver_at);
    assert forall|i: int| #![trigger t.queue[i]] 0 <= i < t.queue.len() implies s.queue.contains(
        t.queue[i],
    ) || t.queue[i].message == message by {
        if !takes_in(s, message) || i < at {
            assert(t.queue[i] == s.queue[i]);
        } else if i > at {
            assert(t.queue[i] == s.queue[i - 1]);
        }
    }
}

/// Whatever a tick leaves in the queue was there before, and whatever it
/// delivers was in the queue and has an open link.
pub proof fn lemma_advanced_queue<C>(s: NetworkState<C>)
    ensures
        forall|i: int|
            #![trigger advanced(s).0.queue[i]]
            0 <= i < advanced(s).0.queue.len() ==> s.queue.contains(advanced(s).0.queue[i]),
        forall|i: int|
            #![trigger advanced(s).1[i]]
            0 <= i < advanced(s).1.len() ==> {
                let m = advanced(s).1[i];
                &&& reachable(s, m.from, m.to)
                &&& exists|j: int| 0 <= j < s.queue.len() && (#[trigger] s.queue[j]).message == m
            },
{
    let (t, out) = advanced(s);
    let n = due_by(s.queue, t.now) as int;
    let due = s.queue.take(n);
    lemma_due_by(s.queue, t.now);
    lemma_passing(s, due);
    assert forall|i: int| #![trigger t.queue[i]] 0 <= i < t.queue.len() implies s.queue.contains(
        t.queue[i],
    ) by {
        assert(t.queue[i] == s.queue[n + i]);
    }
    assert forall|i: int| #![trigger out[i]] 0 <= i < out.len() implies {
        let m = out[i];
        &&& reachable(s, m.from, m.to)
        &&& exists|j: int| 0 <= j < s.queue.len() && (#[trigger] s.queue[j]).message == m
    } by {
        let j = choose|j: int| 0 <= j < due.len() && (#[trigger] due[j]).message == out[i];
        assert(s.queue[j] == due[j]);
    }
}

/// A tick delivers only what was due by then, over open links: nothing from
/// or to a disconnected node, and under a partition nothing from one group to
/// another. What is not due stays, in order.
pub proof fn law_advance<C>(s: NetworkState<C>)
    requires
        sound_network(s),
        s.now < u64::MAX,
    ensures
        sound_network(advanced(s).0),
        forall|i: int|
            0 <= i < advanced(s).1.len() ==> {
                let m = #[trigger] advanced(s).1[i];
                &&& reachable(s, m.from, m.to)
                &&& exists|j: int|
                    0 <= j < s.queue.len() && (#[trigger] s.queue[j]).message == m
                        && s.queue[j].deliver_at == s.now + 1
            },
        forall|j: int|
            0 <= j < s.queue.len() && (#[trigger] s.queue[j]).deliver_at > s.now + 1
                ==> advanced(s).0.queue.contains(s.queue[j]),
        forall|i: int|
            0 <= i < advanced(s).0.queue.len() ==> s.queue.contains(
                #[trigger] advanced(s).0.queue[i],
            ) && advanced(s).0.queue[i].deliver_at > s.now + 1,
        forall|j: int|
            0 <= j < s.queue.len() && (#[trigger] s.queue[j]).deliver_at == s.now + 1 && reachable(
                s,
                s.queue[j].message.from,
                s.queue[j].message.to,
            ) ==> advanced(s).1.contains(s.queue[j].message),
{
    let t = advanced(s).0;
    let out = advanced(s).1;
    let n = due_by(s.queue, t.now) as int;
    lemma_due_by(s.queue, t.now);
    let due = s.queue.take(n);
    lemma_passing(s, due);
    assert forall|i: int, j: int|
        #![trigger t.queue[i], t.queue[j]]
        0 <= i <= j < t.queue.len() implies t.queue[i].deliver_at <= t.queue[j].deliver_at by {
        assert(t.queue[i] == s.queue[i + n]);
        assert(t.queue[j] == s.queue[j + n]);
    }
    assert forall|i: int| #![trigger t.queue[i]] 0 <= i < t.queue.len() implies t.queue[i].deliver_at
        > t.now by {
        assert(t.queue[i] == s.queue[i + n]);
        assert(s.queue[n].deliver_at <= s.queue[i + n].deliver_at);
    }
    assert forall|i: int| 0 <= i < out.len() implies {
        let m = #[trigger] out[i];
        &&& reachable(s, m.from, m.to)
        &&& exists|j: int|
            0 <= j < s.queue.len() && (#[trigger] s.queue[j]).message == m && s.queue[j].deliver_at
                == s.now + 1
    } by {
        let m = out[i];
        let j = choose|j: int| 0 <= j < due.len() && (#[trigger] due[j]).message == m;
        assert(s.queue[j] == due[j]);
        assert(s.queue[j].deliver_at <= t.now);
        assert(s.queue[j].deliver_at > s.now);
    }
    assert forall|j: int|
        0 <= j < s.queue.len() && (#[trigger] s.queue[j]).deliver_at > s.now
            + 1 implies t.queue.contains(s.queue[j]) by {
        assert(j >= n);
        assert(t.queue[j - n] == s.queue[j]);
    }
    assert forall|j: int|
        0 <= j < s.queue.len() && (#[trigger] s.queue[j]).deliver_at == s.now + 1 && reachable(
            s,
            s.queue[j].message.from,
            s.queue[j].message.to,
        ) implies out.contains(s.queue[j].message) by {
        assert(j < n) by {
            if j >= n {
                assert(s.queue[n].deliver_at <= s.queue[j].deliver_at);
            }
        }
        assert(due[j] == s.queue[j]);
    }
}

/// Exactly the messages with an open link pass.
proof fn lemma_passing<C>(s: NetworkState<C>, flights: Seq<Flight<C>>)
    ensures
        forall|i: int|
            0 <= i < passing(s, flights).len() ==> {
                let m = #[trigger] passing(s, flights)[i];
                &&& reachable(s, m.from, m.to)
                &&& exists|j: int| 0 <= j < flights.len() && (#[trigger] flights[j]).message == m
            },
        forall|j: int|
            0 <= j < flights.len() && reachable(
                s,
                (#[trigger] flights[j]).message.from,
                flights[j].message.to,
            ) ==> passing(s, flights).contains(flights[j].message),
    decreases flights.len(),
{
    if flights.len() > 0 {
        let rest = flights.drop_last();
        let before = passing(s, rest);
        let all = passing(s, flights);
        lemma_passing(s, rest);
        assert forall|i: int| 0 <= i < all.len() implies {
            let m = #[trigger] all[i];
            &&& reachable(s, m.from, m.to)
            &&& exists|j: int| 0 <= j < flights.len() && (#[trigger] flights[j]).message == m
        } by {
            if i < before.len() {
                let m = before[i];
                let j = choose|j: int| 0 <= j < rest.len() && (#[trigger] rest[j]).message == m;
                assert(flights[j] == rest[j]);
            } else {
                assert(flights[flights.len() - 1] == flights.last());
            }
        }
        assert forall|j: int|
            0 <= j < flights.len() && reachable(
                s,
                (#[trigger] flights[j]).message.from,
                flights[j].message.to,
            ) implies all.contains(flights[j].message) by {
            if j < rest.len() {
                assert(rest[j] == flights[j]);
                let i = choose|i: int| 0 <= i < before.len() && before[i] == flights[j].message;
                assert(all[i] == before[i]);
            } else {
                assert(all[all.len() - 1] == flights[j].message);
            }
        }
    }
}

/// What a tick delivers it delivers in the order of the queue: the result
/// gives the place at which each message stood.
pub proof fn law_delivery_keeps_the_order<C>(s: NetworkState<C>) -> (places: Seq<int>)
    ensures
        places.len() == advanced(s).1.len(),
        forall|i: int|
            #![trigger places[i]]
            0 <= i < places.len() ==> 0 <= places[i] < s.queue.len() && s.queue[places[i]].message
                == advanced(s).1[i],
        forall|i: int, j: int|
            #![trigger places[i], places[j]]
            0 <= i < j < places.len() ==> places[i] < places[j],
{
    let due = due_by(s.queue, (s.now + 1) as u64) as int;
    lemma_due_by(s.queue, (s.now + 1) as u64);
    let places = lemma_passing_places(s, s.queue.take(due));
    assert forall|i: int| #![trigger places[i]] 0 <= i < places.len() implies s.queue[places[i]].message
        == advanced(s).1[i] by {
        assert(s.queue.take(due)[places[i]] == s.queue[places[i]]);
    }
    places
}

proof fn lemma_passing_places<C>(s: NetworkState<C>, flights: Seq<Flight<C>>) -> (places: Seq<int>)
    ensures
        places.len() == passing(s, flights).len(),
        forall|i: int|
            #![trigger places[i]]
            0 <= i < places.len() ==> 0 <= places[i] < flights.len() && flights[places[i]].message
                == passing(s, flights)[i],
        forall|i: int, j: int|
            #![trigger places[i], places[j]]
            0 <= i < j < places.len() ==> places[i] < places[j],
    decreases flights.len(),
{
    if flights.len() == 0 {
        Seq::empty()
    } else {
        let before = lemma_passing_places(s, flights.drop_last());
        let message = flights.last().message;
        if reachable(s, message.from, message.to) {
            before.push(flights.len() - 1)
        } else {
            before
        }
    }
}

/// No two groups share a node.
pub open spec fn disjoint(groups: Seq<Seq<NodeId>>) -> bool {
    forall|i: int, j: int, id: NodeId|
        #![trigger groups[i].contains(id), groups[j].contains(id)]
        0 <= i < groups.len() && 0 <= j < groups.len() && groups[i].contains(id)
            && groups[j].contains(id) ==> i == j
}

/// Messages flow exactly between nodes that are not disconnected and, under a
/// partition into disjoint groups, stand in one group; so they flow both ways
/// or neither.
pub proof fn law_messages_stay_within_a_group<C>(s: NetworkState<C>, from: NodeId, to: NodeId)
    requires
        s.partition matches Some(groups) ==> disjoint(groups),
    ensures
        reachable(s, from, to) <==> {
            &&& !s.disconnected.contains(from)
            &&& !s.disconnected.contains(to)
            &&& s.partition matches Some(groups) ==> exists|i: int|
                0 <= i < groups.len() && (#[trigger] groups[i]).contains(from)
                    && groups[i].contains(to)
        },
        reachable(s, from, to) == reachable(s, to, from),
{
    if let Some(groups) = s.partition {
        lemma_same_group(groups, from, to);
    }
}

/// In disjoint groups, two nodes have the same group exactly when one group
/// holds both.
proof fn lemma_same_group(groups: Seq<Seq<NodeId>>, from: NodeId, to: NodeId)
    requires
        disjoint(groups),
    ensures
        group_of(groups, from) is Some && group_of(groups, from) == group_of(groups, to)
            <==> exists|i: int|
            0 <= i < groups.len() && (#[trigger] groups[i]).contains(from) && groups[i].contains(
                to,
            ),
{
    if group_of(groups, from) is Some && group_of(groups, from) == group_of(groups, to) {
        let i = choose|i: int| is_group_of(groups, from, i);
        let j = choose|j: int| is_group_of(groups, to, j);
        assert(group_of(groups, from) == Some(i));
        assert(group_of(groups, to) == Some(j));
        assert(groups[i].contains(from) && groups[i].contains(to));
    }
    if exists|i: int|
        0 <= i < groups.len() && (#[trigger] groups[i]).contains(from) && groups[i].contains(to) {
        let i = choose|i: int|
            0 <= i < groups.len() && (#[trigger] groups[i]).contains(from) && groups[i].contains(
                to,
            );
        assert forall|j: int| #![trigger groups[j]] 0 <= j < i implies !groups[j].contains(from)
            && !groups[j].contains(to) by {
            if groups[j].contains(from) {
                assert(groups[i].contains(from));
            }
            if groups[j].contains(to) {
                assert(groups[i].contains(to));
            }
        }
        lemma_group_of_is(groups, from, i);
        lemma_group_of_is(groups, to, i);
    }
}

/// A node omitted from every group is unreachable from everyone, as if it
/// were disconnected.
pub proof fn law_omitted_nodes_are_cut_off<C>(
    s: NetworkState<C>,
    groups: Seq<Seq<NodeId>>,
    id: NodeId,
    other: NodeId,
)
    requires
        s.partition == Some(groups),
        forall|i: int| #![trigger groups[i]] 0 <= i < groups.len() ==> !groups[i].contains(id),
    ensures
        !reachable(s, id, other),
        !reachable(s, other, id),
{
    assert(group_of(groups, id) is None) by {
        if exists|i: int| is_group_of(groups, id, i) {
            let i = choose|i: int| is_group_of(groups, id, i);
            assert(groups[i].contains(id));
        }
    }
}

// ---- the network ------------------------------------------------------------------

/// Queue entry: an envelope and the tick at which it arrives.
struct Scheduled<C> {
    deliver_at: u64,
    envelope: Envelope<C>,
}

/// A deterministic, seeded, in-memory network with injectable latency,
/// packet loss, and partitions (including whole-node disconnects to
/// simulate a crashed process).
pub struct Network<C> {
    config: NetworkConfig,
    rng: StdRng,
    now: u64,
    /// In order of delivery; for the same tick, in the order of sending.
    queue: Vec<Scheduled<C>>,
    /// If `Some`, only messages between nodes in the same inner group are
    /// delivered — everything else is dropped. `None` means fully connected
    /// (modulo per-node `disconnected` below).
    partition: Option<Vec<Vec<NodeId>>>,
    disconnected: HashSet<NodeId>,
}

spec fn flights<C>(queue: Seq<Scheduled<C>>) -> Seq<Flight<C>> {
    Seq::new(
        queue.len(),
        |i: int| Flight { deliver_at: queue[i].deliver_at, message: queue[i].envelope@ },
    )
}

/// The groups of a partition as sequences.
pub open spec fn group_views(groups: Seq<Vec<NodeId>>) -> Seq<Seq<NodeId>> {
    Seq::new(groups.len(), |i: int| groups[i]@)
}

impl<C> View for Network<C> {
    type V = NetworkState<C>;

    closed spec fn view(&self) -> NetworkState<C> {
        NetworkState {
            config: self.config,
            rng: self.rng,
            now: self.now,
            queue: flights(self.queue@),
            partition: match self.partition {
                None => None,
                Some(groups) => Some(group_views(groups@)),
            },
            disconnected: self.disconnected@,
        }
    }
}

impl<C: Clone> Network<C> {
    /// What holds of a network between any two calls.
    pub open spec fn wf(&self) -> bool {
        sound_network(self@)
    }

    pub fn new(config: NetworkConfig, seed: u64) -> (network: Self)
        ensures
            network.wf(),
            network@ == fresh_network::<C>(config, seed),
    {
        let network = Network {
            config,
            rng: generator_from_seed(seed),
            now: 0,
            queue: Vec::new(),
            partition: None,
            disconnected: HashSet::new(),
        };
        assert(network@ =~= fresh_network::<C>(config, seed));
        network
    }

    pub fn now(&self) -> (tick: u64)
        ensures
            tick == self@.now,
    {
        self.now
    }

    /// The first group that contains `id`.
    fn group_of(groups: &Vec<Vec<NodeId>>, id: NodeId) -> (group: Option<usize>)
        ensures
            match group {
                Some(i) => group_of(group_views(groups@), id) == Some(i as int),
                None => group_of(group_views(groups@), id) is None,
            },
    {
        let ghost views = group_views(groups@);
        let mut i: usize = 0;
        while i < groups.len()
            invariant
                i <= groups@.len(),
                views == group_views(groups@),
                forall|j: int| #![trigger views[j]] 0 <= j < i ==> !views[j].contains(id),
            decreases groups@.len() - i,
        {
            let group = &groups[i];
            assert(views[i as int] == group@);
            let mut k: usize = 0;
            while k < group.len()
                invariant
                    i < groups@.len(),
                    k <= group@.len(),
                    views == group_views(groups@),
                    views[i as int] == group@,
                    forall|j: int| #![trigger views[j]] 0 <= j < i ==> !views[j].contains(id),
                    forall|j: int| #![trigger group@[j]] 0 <= j < k ==> group@[j] != id,
                decreases group@.len() - k,
            {
                if group[k] == id {
                    proof {
                        assert(group@.contains(id));
                        lemma_group_of_is(views, id, i as int);
                    }
                    return Some(i);
                }
                k += 1;
            }
            i += 1;
        }
        None
    }

    fn is_reachable(&self, from: NodeId, to: NodeId) -> (open: bool)
        ensures
            open == reachable(self@, from, to),
    {
        if self.disconnected.contains(&from) || self.disconnected.contains(&to) {
            return false;
        }
        match &self.partition {
            None => true,
            Some(groups) => match (Self::group_of(groups, from), Self::group_of(groups, to)) {
                (Some(a), Some(b)) => a == b,
                _ => false,
            },
        }
    }

    /// How many messages at the front of the queue are due by `tick`.
    fn count_due(&self, tick: u64) -> (n: usize)
        ensures
            n == due_by(self@.queue, tick),
            n <= self.queue@.len(),
    {
        let mut n: usize = 0;
        while n < self.queue.len() && self.queue[n].deliver_at <= tick
            invariant
                n <= self.queue@.len(),
                self@.queue == flights(self.queue@),
                forall|i: int|
                    #![trigger self@.queue[i]]
                    0 <= i < n ==> self@.queue[i].deliver_at <= tick,
            decreases self.queue@.len() - n,
        {
            n += 1;
        }
        proof {
            lemma_due_by_is(self@.queue, tick, n as int);
        }
        n
    }

    /// Enqueue a message for (probabilistic, delayed) delivery. Silently
    /// drops it if the link is currently unreachable (partitioned or one
    /// endpoint disconnected) or if the random drop check fires.
    pub fn send(&mut self, envelope: Envelope<C>)
        requires
            old(self).wf(),
            takes_in(old(self)@, envelope@) ==> can_send(old(self)@),
        ensures
            final(self).wf(),
            final(self)@ == dispatched(old(self)@, envelope@),
            queue_extended(old(self)@, final(self)@, envelope@),
    {
        if !self.is_reachable(envelope.from, envelope.to) {
            return;
        }
        if let Some(chance) = &self.config.drop_probability {
            if draw_chance(&mut self.rng, chance) {
                assert(self@ =~= dispatched(old(self)@, envelope@));
                return;
            }
        }
        let latency: u64 = if self.config.max_latency_ticks > self.config.min_latency_ticks {
            draw_in_range(
                &mut self.rng,
                self.config.min_latency_ticks,
                self.config.max_latency_ticks,
            )
        } else {
            self.config.min_latency_ticks
        };
        let ghost drawn = self@;
        let ghost message = envelope@;
        assert(drawn =~= (NetworkState { rng: drawn.rng, ..old(self)@ }));
        self.schedule(envelope, latency);
        proof {
            lemma_scheduled(drawn, message, latency);
            let deliver_at = arrival(drawn.now, latency) as u64;
            assert(joined(
                old(self)@,
                self@,
                message,
                due_by(drawn.queue, deliver_at) as int,
                deliver_at,
            ));
        }
    }

    /// Enqueue a message for delivery after `latency` ticks, at least one
    /// tick from now, whatever the state of its link.
    pub fn schedule(&mut self, envelope: Envelope<C>, latency: u64)
        requires
            old(self).wf(),
            arrival(old(self)@.now, latency) <= u64::MAX,
        ensures
            final(self).wf(),
            final(self)@ == scheduled(old(self)@, envelope@, latency),
            stands_at(
                old(self)@,
                final(self)@,
                envelope@,
                due_by(old(self)@.queue, arrival(old(self)@.now, latency) as u64) as int,
                arrival(old(self)@.now, latency) as u64,
            ),
    {
        proof {
            lemma_scheduled(self@, envelope@, latency);
        }
        let deliver_at: u64 = self.now + if latency < 1 {
            1
        } else {
            latency
        };
        let at: usize = self.count_due(deliver_at);
        let ghost before = self.queue@;
        let ghost message = envelope@;
        self.queue.insert(at, Scheduled { deliver_at, envelope });
        assert(self@.queue =~= flights(before).insert(at as int, Flight { deliver_at, message }));
        assert(self@ =~= scheduled(old(self)@, message, latency));
    }

    /// Advance the logical clock by one tick and return every message whose
    /// delivery time has arrived (re-checking reachability at delivery time,
    /// since a partition may have opened *after* the message was sent).
    pub fn advance_tick(&mut self) -> (due: Vec<Envelope<C>>)
        requires
            old(self).wf(),
            old(self)@.now < u64::MAX,
        ensures
            final(self).wf(),
            (final(self)@, messages(due@)) == advanced(old(self)@),
    {
        self.now = self.now + 1;
        let n: usize = self.count_due(self.now);
        let ghost before = self.queue@;
        let mut ready: Vec<Scheduled<C>> = self.queue.split_off(n);
        std::mem::swap(&mut ready, &mut self.queue);
        proof {
            law_advance(old(self)@);
            assert(ready@ =~= before.take(n as int));
            assert(self.queue@ =~= before.skip(n as int));
            assert(flights(self.queue@) =~= flights(before).skip(n as int));
            assert(flights(ready@) =~= flights(before).take(n as int));
        }
        assert(self@ =~= advanced(old(self)@).0);
        let ghost all = ready@;
        let mut due: Vec<Envelope<C>> = Vec::new();
        for item in items: ready.into_iter()
            invariant
                items.seq() == all,
                self@ == advanced(old(self)@).0,
                messages(due@) == passing(old(self)@, flights(all.take(items.index() as int))),
        {
            let ghost k = items.index() as int;
            proof {
                assert(flights(all.take(k + 1)).drop_last() =~= flights(all.take(k)));
                assert(flights(all.take(k + 1)).last().message == item.envelope@);
            }
            let ghost so_far = due@;
            if self.is_reachable(item.envelope.from, item.envelope.to) {
                due.push(item.envelope);
                assert(messages(due@) =~= messages(so_far).push(item.envelope@));
            }
        }
        assert(all.take(all.len() as int) =~= all);
        due
    }

    /// Split the cluster into disjoint groups; messages only flow within a
    /// group. Nodes omitted from every group are treated as unreachable
    /// from everyone (equivalent to being disconnected).
    pub fn set_partition(&mut self, groups: Vec<Vec<NodeId>>)
        requires
            old(self).wf(),
        ensures
            final(self).wf(),
            final(self)@ == (NetworkState {
                partition: Some(group_views(groups@)),
                ..old(self)@
            }),
    {
        self.partition = Some(groups);
    }

    pub fn heal_partition(&mut self)
        requires
            old(self).wf(),
        ensures
            final(self).wf(),
            final(self)@ == (NetworkState { partition: None, ..old(self)@ }),
    {
        self.partition = None;
    }

    /// Simulate a node crashing: no message reaches it, and none it sends
    /// reaches anyone else. Its in-memory `Storage`/`RaftNode` state is
    /// untouched (an honest, disclosed simplification, not real
    /// crash-recovery from disk).
    pub fn disconnect(&mut self, id: NodeId)
        requires
            old(self).wf(),
        ensures
            final(self).wf(),
            final(self)@ == (NetworkState {
                disconnected: old(self)@.disconnected.insert(id),
                ..old(self)@
            }),
    {
        self.disconnected.insert(id);
    }

    pub fn reconnect(&mut self, id: NodeId)
        requires
            old(self).wf(),
        ensures
            final(self).wf(),
            final(self)@ == (NetworkState {
                disconnected: old(self)@.disconnected.remove(id),
                ..old(self)@
            }),
    {
        self.disconnected.remove(&id);
    }

    pub fn is_disconnected(&self, id: NodeId) -> (gone: bool)
        ensures
            gone == self@.disconnected.contains(id),
    {
        self.disconnected.contains(&id)
    }
}

/// The group found is the one that the model names.
pub proof fn lemma_group_of_is(groups: Seq<Seq<NodeId>>, id: NodeId, i: int)
    requires
        is_group_of(groups, id, i),
    ensures
        group_of(groups, id) == Some(i),
{
    let j = choose|j: int| is_group_of(groups, id, j);
    if i < j {
        assert(!groups[i].contains(id));
    } else if j < i {
        assert(!groups[j].contains(id));
    }
}

} // verus!
