//! What holds of a network over a whole series of calls.

use vstd::prelude::*;

use rand::rngs::StdRng;

use crate::random::{chance_draw, range_draw, seeded_generator};
use crate::rpc::{Message, NodeId};
use crate::sim::network::{
    advanced, all_dispatched, arrival, dispatched, due_by, fresh_network, group_views, is_group_of,
    joined, law_advance, lemma_due_by, lemma_group_of_is, lemma_scheduled, passing, queue_extended,
    reachable, scheduled, sound_network, takes_in, Flight, NetworkConfig, NetworkState,
};

verus! {

/// Anything a network is told.
pub enum Call<C> {
    Send(Message<C>),
    AdvanceTick,
    SetPartition(Seq<Seq<NodeId>>),
    HealPartition,
    Disconnect(NodeId),
    Reconnect(NodeId),
}

/// What a call makes of a network, and the messages that it returns.
pub open spec fn called<C>(s: NetworkState<C>, call: Call<C>) -> (
    NetworkState<C>,
    Seq<Message<C>>,
) {
    match call {
        Call::Send(message) => (dispatched(s, message), Seq::empty()),
        Call::AdvanceTick => advanced(s),
        Call::SetPartition(groups) => (
            NetworkState { partition: Some(groups), ..s },
            Seq::empty(),
        ),
        Call::HealPartition => (NetworkState { partition: None, ..s }, Seq::empty()),
        Call::Disconnect(id) => (
            NetworkState { disconnected: s.disconnected.insert(id), ..s },
            Seq::empty(),
        ),
        Call::Reconnect(id) => (
            NetworkState { disconnected: s.disconnected.remove(id), ..s },
            Seq::empty(),
        ),
    }
}

/// What a series of calls makes of a network, and what each of them returns.
pub open spec fn played<C>(s: NetworkState<C>, calls: Seq<Call<C>>) -> (
    NetworkState<C>,
    Seq<Seq<Message<C>>>,
)
    decreases calls.len(),
{
    if calls.len() == 0 {
        (s, Seq::empty())
    } else {
        let (t, returned) = played(s, calls.drop_last());
        let (u, out) = called(t, calls.last());
        (u, returned.push(out))
    }
}

/// Reproducibility: two networks of one configuration and seed that are told
/// the same return the same messages at each call and stay equal, their
/// clocks among the rest, however the two series go on afterwards.
pub proof fn law_same_seed_same_deliveries<C>(
    config: NetworkConfig,
    seed: u64,
    a: Seq<Call<C>>,
    b: Seq<Call<C>>,
    n: int,
)
    requires
        0 <= n <= a.len(),
        n <= b.len(),
        a.take(n) == b.take(n),
    ensures
        played(fresh_network(config, seed), a).1.len() == a.len(),
        played(fresh_network(config, seed), a).1.take(n) == played(
            fresh_network(config, seed),
            b,
        ).1.take(n),
        played(fresh_network(config, seed), a.take(n)).0 == played(
            fresh_network(config, seed),
            b.take(n),
        ).0,
{
    let s = fresh_network::<C>(config, seed);
    lemma_played_so_far(s, a, n);
    lemma_played_so_far(s, b, n);
}

proof fn lemma_played_so_far<C>(s: NetworkState<C>, calls: Seq<Call<C>>, n: int)
    requires
        0 <= n <= calls.len(),
    ensures
        played(s, calls).1.len() == calls.len(),
        played(s, calls).1.take(n) == played(s, calls.take(n)).1,
    decreases calls.len(),
{
    if n == calls.len() {
        assert(calls.take(n) =~= calls);
        if n > 0 {
            lemma_played_so_far(s, calls.drop_last(), n - 1);
        }
        assert(played(s, calls).1.take(n) =~= played(s, calls).1);
    } else {
        let rest = calls.drop_last();
        lemma_played_so_far(s, rest, n);
        assert(rest.take(n) =~= calls.take(n));
        assert(played(s, calls).1.take(n) =~= played(s, rest).1.take(n));
    }
}

/// Every call finds and leaves the network in order, as the calls on a
/// [`crate::sim::Network`] do.
pub open spec fn in_order<C>(s: NetworkState<C>, calls: Seq<Call<C>>) -> bool {
    forall|k: int|
        0 <= k <= calls.len() ==> #[trigger] sound_network(played(s, calls.take(k)).0)
            && queues_rightly(s, calls, k)
}

/// The call at place `k`, if it hands over a message, extends the queue; if it
/// is a tick, there is a next tick.
pub open spec fn queues_rightly<C>(s: NetworkState<C>, calls: Seq<Call<C>>, k: int) -> bool {
    let t = played(s, calls.take(k)).0;
    k < calls.len() ==> match calls[k] {
        Call::Send(message) => queue_extended(t, dispatched(t, message), message),
        Call::AdvanceTick => t.now < u64::MAX,
        _ => true,
    }
}

/// A message that was taken in waits until the tick at which it is due,
/// whatever happens meanwhile; from then on it is gone.
pub proof fn law_messages_wait_until_due<C>(s: NetworkState<C>, calls: Seq<Call<C>>, j: int)
    requires
        in_order(s, calls),
        0 <= j < s.queue.len(),
    ensures
        played(s, calls).0.now < s.queue[j].deliver_at <==> played(s, calls).0.queue.contains(
            s.queue[j],
        ),
    decreases calls.len(),
{
    let flight = s.queue[j];
    let u = played(s, calls).0;
    assert(calls.take(calls.len() as int) =~= calls);
    assert(sound_network(played(s, calls.take(calls.len() as int)).0));
    if calls.len() == 0 {
        assert(u.queue[j] == flight);
    } else {
        let n = calls.len() - 1;
        let rest = calls.drop_last();
        let t = played(s, rest).0;
        assert(rest =~= calls.take(n));
        assert forall|k: int| 0 <= k <= rest.len() implies #[trigger] sound_network(
            played(s, rest.take(k)).0,
        ) && queues_rightly(s, rest, k) by {
            assert(rest.take(k) =~= calls.take(k));
            assert(sound_network(played(s, calls.take(k)).0));
            assert(queues_rightly(s, calls, k));
        }
        assert(sound_network(played(s, calls.take(n)).0));
        assert(queues_rightly(s, calls, n));
        law_messages_wait_until_due(s, rest, j);
        if t.queue.contains(flight) {
            let i = choose|i: int| 0 <= i < t.queue.len() && t.queue[i] == flight;
            match calls.last() {
                Call::Send(message) => {
                    if takes_in(t, message) {
                        let (at, deliver_at) = choose|at: int, deliver_at: u64|
                            joined(t, u, message, at, deliver_at);
                        if i < at {
                            assert(u.queue[i] == flight);
                        } else {
                            assert(u.queue[i + 1] == flight);
                        }
                    }
                },
                Call::AdvanceTick => {
                    law_advance(t);
                },
                _ => {},
            }
        }
    }
    if u.queue.contains(flight) {
        let i = choose|i: int| 0 <= i < u.queue.len() && u.queue[i] == flight;
        assert(u.queue[i].deliver_at > u.now);
    }
}

// ---- single calls -----------------------------------------------------------------

/// Messages flow between two nodes exactly when neither is disconnected and,
/// under a partition, some group holds both and no earlier group holds either.
pub proof fn law_links<C>(s: NetworkState<C>, from: NodeId, to: NodeId)
    ensures
        reachable(s, from, to) <==> {
            &&& !s.disconnected.contains(from)
            &&& !s.disconnected.contains(to)
            &&& s.partition matches Some(groups) ==> exists|i: int| #[trigger]
                first_shared_group(groups, from, to, i)
        },
{
    if let Some(groups) = s.partition {
        if exists|i: int| #[trigger] first_shared_group(groups, from, to, i) {
            let i = choose|i: int| #[trigger] first_shared_group(groups, from, to, i);
            lemma_group_of_is(groups, from, i);
            lemma_group_of_is(groups, to, i);
        }
        if reachable(s, from, to) {
            let i = choose|i: int| is_group_of(groups, from, i);
            let j = choose|j: int| is_group_of(groups, to, j);
            assert(i == j);
            assert(first_shared_group(groups, from, to, i));
        }
    }
}

/// Group `i` holds both nodes, and no earlier one holds either.
pub open spec fn first_shared_group(
    groups: Seq<Seq<NodeId>>,
    from: NodeId,
    to: NodeId,
    i: int,
) -> bool {
    &&& 0 <= i < groups.len()
    &&& groups[i].contains(from)
    &&& groups[i].contains(to)
    &&& forall|j: int|
        #![trigger groups[j]]
        0 <= j < i ==> !groups[j].contains(from) && !groups[j].contains(to)
}

/// `t` is the network after `message` joined the queue to arrive at
/// `deliver_at`: behind everything that arrives no later, before everything
/// that arrives later; nothing else moved.
pub open spec fn queues<C>(
    s: NetworkState<C>,
    t: NetworkState<C>,
    message: Message<C>,
    deliver_at: int,
) -> bool {
    exists|at: int| #[trigger] queues_at(s, t, message, deliver_at, at)
}

pub open spec fn queues_at<C>(
    s: NetworkState<C>,
    t: NetworkState<C>,
    message: Message<C>,
    deliver_at: int,
    at: int,
) -> bool {
    &&& 0 <= at <= s.queue.len()
    &&& t.queue.len() == s.queue.len() + 1
    &&& t.queue[at].message == message
    &&& t.queue[at].deliver_at == deliver_at
    &&& forall|i: int|
        #![trigger s.queue[i]]
        0 <= i < at ==> t.queue[i] == s.queue[i] && s.queue[i].deliver_at <= deliver_at
    &&& forall|i: int|
        #![trigger s.queue[i]]
        at <= i < s.queue.len() ==> t.queue[i + 1] == s.queue[i] && s.queue[i].deliver_at
            > deliver_at
    &&& t == NetworkState { queue: t.queue, ..s }
}

/// A message with a latency arrives that many ticks from now, and at least one
/// tick from now.
pub proof fn law_schedule<C>(s: NetworkState<C>, message: Message<C>, latency: u64)
    requires
        sound_network(s),
        s.now + latency <= u64::MAX,
        s.now < u64::MAX,
    ensures
        queues(
            s,
            scheduled(s, message, latency),
            message,
            if latency == 0 {
                s.now + 1
            } else {
                s.now + latency
            },
        ),
{
    let t = scheduled(s, message, latency);
    let deliver_at = arrival(s.now, latency);
    let at = due_by(s.queue, deliver_at as u64) as int;
    lemma_scheduled(s, message, latency);
    assert(queues_at(s, t, message, deliver_at, at));
}

/// What handing over a message does. Over a link that is not open nothing
/// happens. Else, if messages may be lost, one draw decides; a message that is
/// lost leaves no trace but the draw. Else the latency is the fixed one, or a
/// second draw between the bounds, and the message joins the queue.
pub proof fn law_send<C>(s: NetworkState<C>, message: Message<C>)
    requires
        sound_network(s),
        ({
            let (lost, rng) = match s.config.drop_probability {
                None => (false, s.rng),
                Some(chance) => chance_draw(s.rng, chance),
            };
            reachable(s, message.from, message.to) && !lost ==> s.now < u64::MAX && s.now
                + drawn_latency(s.config, rng).0 <= u64::MAX
        }),
    ensures
        ({
            let t = dispatched(s, message);
            let open = reachable(s, message.from, message.to);
            let (lost, rng) = match s.config.drop_probability {
                None => (false, s.rng),
                Some(chance) => chance_draw(s.rng, chance),
            };
            let (latency, rest) = drawn_latency(s.config, rng);
            &&& !open ==> t == s
            &&& open && lost ==> t == NetworkState { rng, ..s }
            &&& open && !lost ==> queues(
                NetworkState { rng: rest, ..s },
                t,
                message,
                if latency == 0 {
                    s.now + 1
                } else {
                    s.now + latency
                },
            )
        }),
{
    let (lost, rng) = match s.config.drop_probability {
        None => (false, s.rng),
        Some(chance) => chance_draw(s.rng, chance),
    };
    let (latency, rest) = drawn_latency(s.config, rng);
    if reachable(s, message.from, message.to) && !lost {
        law_schedule(NetworkState { rng: rest, ..s }, message, latency);
    }
}

/// The latency of a message: the fixed one, or one drawn between the bounds;
/// and the generator afterwards.
pub open spec fn drawn_latency(config: NetworkConfig, rng: StdRng) -> (u64, StdRng) {
    if config.min_latency_ticks < config.max_latency_ticks {
        range_draw(rng, config.min_latency_ticks, config.max_latency_ticks)
    } else {
        (config.min_latency_ticks, rng)
    }
}

/// Messages handed over together are handed over one after the other.
pub proof fn law_sending_in_turn<C>(
    s: NetworkState<C>,
    a: Seq<Message<C>>,
    b: Seq<Message<C>>,
    message: Message<C>,
)
    ensures
        all_dispatched(s, Seq::empty()) == s,
        all_dispatched(s, seq![message]) == dispatched(s, message),
        all_dispatched(s, a + b) == all_dispatched(all_dispatched(s, a), b),
    decreases b.len(),
{
    reveal_with_fuel(all_dispatched, 2);
    assert(seq![message].drop_last() =~= Seq::empty());
    if b.len() == 0 {
        assert(a + b =~= a);
    } else {
        law_sending_in_turn(s, a, b.drop_last(), message);
        assert((a + b).drop_last() =~= a + b.drop_last());
    }
}

/// A tick takes from the queue exactly what is due by then, and returns, in
/// the order of the queue, each of those whose link is open, once; the rest
/// stays as it is. The result gives where in the queue each message returned
/// stood.
pub proof fn law_tick_delivers<C>(s: NetworkState<C>) -> (places: Seq<int>)
    requires
        sound_network(s),
        s.now < u64::MAX,
    ensures
        ({
            let (t, out) = advanced(s);
            let due = s.queue.len() - t.queue.len();
            &&& t == NetworkState { now: (s.now + 1) as u64, queue: t.queue, ..s }
            &&& 0 <= due
            &&& forall|i: int|
                #![trigger s.queue[i]]
                0 <= i < due ==> s.queue[i].deliver_at <= s.now + 1
            &&& forall|i: int|
                #![trigger s.queue[i]]
                due <= i < s.queue.len() ==> s.queue[i].deliver_at > s.now + 1 && t.queue[i - due]
                    == s.queue[i]
            &&& places.len() == out.len()
            &&& forall|i: int, j: int|
                #![trigger places[i], places[j]]
                0 <= i < j < places.len() ==> places[i] < places[j]
            &&& forall|i: int|
                #![trigger places[i]]
                0 <= i < places.len() ==> 0 <= places[i] < due && out[i]
                    == s.queue[places[i]].message
            &&& forall|j: int|
                #![trigger s.queue[j]]
                0 <= j < due ==> (places.contains(j) <==> reachable(
                    s,
                    s.queue[j].message.from,
                    s.queue[j].message.to,
                ))
        }),
{
    let (t, out) = advanced(s);
    let due = due_by(s.queue, t.now) as int;
    lemma_due_by(s.queue, t.now);
    assert forall|i: int|
        #![trigger s.queue[i]]
        due <= i < s.queue.len() implies s.queue[i].deliver_at
        > s.now + 1 && t.queue[i - due] == s.queue[i] by {
        assert(s.queue[due].deliver_at <= s.queue[i].deliver_at);
    }
    let front = s.queue.take(due);
    let places = lemma_open_places(s, front);
    assert forall|i: int| #![trigger places[i]] 0 <= i < places.len() implies 0 <= places[i] < due
        && out[i] == s.queue[places[i]].message by {
        assert(front[places[i]] == s.queue[places[i]]);
    }
    assert forall|j: int| #![trigger s.queue[j]] 0 <= j < due implies (places.contains(j)
        <==> reachable(s, s.queue[j].message.from, s.queue[j].message.to)) by {
        assert(front[j] == s.queue[j]);
    }
    places
}

proof fn lemma_open_places<C>(s: NetworkState<C>, flights: Seq<Flight<C>>) -> (places: Seq<int>)
    ensures
        places.len() == passing(s, flights).len(),
        forall|i: int|
            #![trigger places[i]]
            0 <= i < places.len() ==> 0 <= places[i] < flights.len() && flights[places[i]].message
                == passing(s, flights)[i],
        forall|i: int, j: int|
            #![trigger places[i], places[j]]
            0 <= i < j < places.len() ==> places[i] < places[j],
        forall|j: int|
            #![trigger flights[j]]
            0 <= j < flights.len() ==> (places.contains(j) <==> reachable(
                s,
                flights[j].message.from,
                flights[j].message.to,
            )),
    decreases flights.len(),
{
    if flights.len() == 0 {
        Seq::empty()
    } else {
        let n = flights.len() - 1;
        let rest = flights.drop_last();
        let before = lemma_open_places(s, rest);
        let message = flights.last().message;
        let open = reachable(s, message.from, message.to);
        let places = if open {
            before.push(n)
        } else {
            before
        };
        assert forall|j: int| #![trigger flights[j]] 0 <= j < flights.len() implies (
        places.contains(j) <==> reachable(
            s,
            flights[j].message.from,
            flights[j].message.to,
        )) by {
            if j < n {
                assert(rest[j] == flights[j]);
                if before.contains(j) {
                    let i = choose|i: int| 0 <= i < before.len() && before[i] == j;
                    assert(places[i] == j);
                }
                if places.contains(j) {
                    let i = choose|i: int| 0 <= i < places.len() && places[i] == j;
                    assert(before[i] == j);
                }
            } else {
                if open {
                    assert(places[before.len() as int] == n);
                }
                if places.contains(j) && !open {
                    let i = choose|i: int| 0 <= i < before.len() && before[i] == j;
                    assert(before[i] < n);
                }
            }
        }
        assert forall|i: int| #![trigger places[i]] 0 <= i < places.len() implies 0 <= places[i]
            < flights.len() && flights[places[i]].message == passing(s, flights)[i] by {
            if i < before.len() {
                assert(places[i] == before[i]);
                assert(rest[before[i]] == flights[before[i]]);
            }
        }
        places
    }
}

/// A network starts at tick zero with nothing under way, no partition and no
/// node disconnected; its chances come from its seed.
pub proof fn law_network_start<C>(config: NetworkConfig, seed: u64)
    ensures
        ({
            let s = fresh_network::<C>(config, seed);
            &&& s.config == config
            &&& s.rng == seeded_generator(seed)
            &&& s.now == 0
            &&& s.queue.len() == 0
            &&& s.partition is None
            &&& s.disconnected == Set::<NodeId>::empty()
        }),
{
}

/// The groups of a partition are read as they are given.
pub proof fn law_groups_are_read(groups: Seq<Vec<NodeId>>)
    ensures
        group_views(groups).len() == groups.len(),
        forall|i: int|
            #![trigger group_views(groups)[i]]
            0 <= i < groups.len() ==> group_views(groups)[i] == groups[i]@,
{
}

} // verus!
