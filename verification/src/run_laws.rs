//! What holds of a single node over a whole series of inputs.
//!
//! [`run`] takes the inputs one by one; [`state_at`] is where the first few of
//! them leave the node. The laws below speak of every series.

use vstd::arithmetic::div_mod::{lemma_fundamental_div_mod, lemma_fundamental_div_mod_converse};
use vstd::prelude::*;

use crate::node::RaftConfig;
use crate::node_laws::{
    law_committed_is_applied, law_one_vote_per_term, law_term_never_falls, outcome, Input,
};
use crate::protocol::{
    append_reply_received, append_requests, can_receive, can_tick, majority_with, max_of, nothing,
    received, sound_node, ticked, vote_reply_received, NodeState, Standing, Step, MAX_BATCH,
};
use crate::rpc::{
    Append, AppendEntriesReply, LogIndex, Message, NodeId, Payload, RequestVoteReply, Term,
};
use crate::storage::{term_at, LogEntry};

verus! {

/// What a node does with a series of inputs: where they leave it, and what it
/// does at each of them.
pub open spec fn run<C>(s: NodeState<C>, inputs: Seq<Input<C>>) -> (NodeState<C>, Seq<Step<C>>)
    decreases inputs.len(),
{
    if inputs.len() == 0 {
        (s, Seq::empty())
    } else {
        let (t, steps) = run(s, inputs.drop_last());
        let (u, step) = outcome(t, inputs.last());
        (u, steps.push(step))
    }
}

/// Where the first `k` inputs leave the node.
pub open spec fn state_at<C>(s: NodeState<C>, inputs: Seq<Input<C>>, k: int) -> NodeState<C> {
    run(s, inputs.take(k)).0
}

/// The term and the indices that an input makes the node count to exist.
pub open spec fn can_take<C>(s: NodeState<C>, input: Input<C>) -> bool {
    match input {
        Input::Tick => can_tick(s),
        Input::Receive(message) => can_receive(s, message),
        Input::Propose(command) => s.standing is Leader ==> s.log.len() < u64::MAX,
    }
}

/// All terms and indices that a series makes the node count to exist.
pub open spec fn can_run<C>(s: NodeState<C>, inputs: Seq<Input<C>>) -> bool {
    forall|k: int|
        0 <= k < inputs.len() ==> can_take(state_at(s, inputs, k), #[trigger] inputs[k])
}

proof fn lemma_state_at_drop_last<C>(s: NodeState<C>, inputs: Seq<Input<C>>, k: int)
    requires
        0 <= k < inputs.len(),
    ensures
        state_at(s, inputs.drop_last(), k) == state_at(s, inputs, k),
{
    assert(inputs.drop_last().take(k) =~= inputs.take(k));
}

proof fn lemma_state_at_end<C>(s: NodeState<C>, inputs: Seq<Input<C>>)
    ensures
        state_at(s, inputs, inputs.len() as int) == run(s, inputs).0,
{
    assert(inputs.take(inputs.len() as int) =~= inputs);
}

/// Each input takes the node on from where the one before left it.
pub proof fn lemma_state_at_next<C>(s: NodeState<C>, inputs: Seq<Input<C>>, k: int)
    requires
        0 <= k < inputs.len(),
    ensures
        state_at(s, inputs, k + 1) == outcome(state_at(s, inputs, k), inputs[k]).0,
{
    assert(inputs.take(k + 1).drop_last() =~= inputs.take(k));
}

proof fn lemma_can_run_drop_last<C>(s: NodeState<C>, inputs: Seq<Input<C>>)
    requires
        can_run(s, inputs),
        inputs.len() > 0,
    ensures
        can_run(s, inputs.drop_last()),
        can_take(run(s, inputs.drop_last()).0, inputs.last()),
{
    let rest = inputs.drop_last();
    assert forall|k: int| 0 <= k < rest.len() implies can_take(
        state_at(s, rest, k),
        #[trigger] rest[k],
    ) by {
        lemma_state_at_drop_last(s, inputs, k);
        assert(can_take(state_at(s, inputs, k), inputs[k]));
    }
    assert(rest =~= inputs.take(inputs.len() - 1));
    assert(can_take(state_at(s, inputs, inputs.len() - 1), inputs[inputs.len() - 1]));
}

// ---- determinism ------------------------------------------------------------------

/// The exact same sequence of inputs always produces the exact same sequence
/// of outputs: nodes that agree at the start agree at each input, however the
/// series goes on afterwards.
pub proof fn law_same_inputs_same_outputs<C>(
    s: NodeState<C>,
    t: NodeState<C>,
    a: Seq<Input<C>>,
    b: Seq<Input<C>>,
    n: int,
)
    requires
        s == t,
        0 <= n <= a.len(),
        n <= b.len(),
        a.take(n) == b.take(n),
    ensures
        run(s, a).1.len() == a.len(),
        run(s, a).1.take(n) == run(t, b).1.take(n),
{
    lemma_run_so_far(s, a, n);
    lemma_run_so_far(t, b, n);
}

proof fn lemma_run_so_far<C>(s: NodeState<C>, inputs: Seq<Input<C>>, n: int)
    requires
        0 <= n <= inputs.len(),
    ensures
        run(s, inputs).1.len() == inputs.len(),
        run(s, inputs).1.take(n) == run(s, inputs.take(n)).1,
    decreases inputs.len(),
{
    if n == inputs.len() {
        assert(inputs.take(n) =~= inputs);
        if n > 0 {
            lemma_run_so_far(s, inputs.drop_last(), n - 1);
        }
        assert(run(s, inputs).1.take(n) =~= run(s, inputs).1);
    } else {
        let rest = inputs.drop_last();
        lemma_run_so_far(s, rest, n);
        assert(rest.take(n) =~= inputs.take(n));
        assert(run(s, inputs).1.take(n) =~= run(s, rest).1.take(n));
    }
}

// ---- terms and votes --------------------------------------------------------------

/// Nothing goes back: no term, and nothing that was applied. A vote once cast
/// stays for as long as the term lasts.
pub proof fn law_nothing_goes_back<C>(s: NodeState<C>, inputs: Seq<Input<C>>, i: int, j: int)
    requires
        can_run(s, inputs),
        0 <= i <= j <= inputs.len(),
    ensures
        state_at(s, inputs, i).term <= state_at(s, inputs, j).term,
        state_at(s, inputs, i).last_applied <= state_at(s, inputs, j).last_applied,
        state_at(s, inputs, i).term == state_at(s, inputs, j).term && state_at(
            s,
            inputs,
            i,
        ).voted_for is Some ==> state_at(s, inputs, j).voted_for == state_at(
            s,
            inputs,
            i,
        ).voted_for,
    decreases j - i,
{
    if i < j {
        law_nothing_goes_back(s, inputs, i, j - 1);
        lemma_state_at_next(s, inputs, j - 1);
        let t = state_at(s, inputs, j - 1);
        let input = inputs[j - 1];
        assert(can_take(t, input));
        law_term_never_falls(t, input);
        law_committed_is_applied(t, input);
        if t.voted_for is Some && outcome(t, input).0.term == t.term {
            law_one_vote_per_term(t, input);
        }
    }
}

/// The vote that a node casts at an input, if any: the term and the
/// candidate. It grants a request, or it stands for election itself.
pub open spec fn vote_cast<C>(s: NodeState<C>, input: Input<C>) -> Option<(Term, NodeId)> {
    let (t, step) = outcome(s, input);
    match input {
        Input::Receive(message) => match message.payload {
            Payload::RequestVote(args) => match step.effects[0].payload {
                Payload::RequestVoteReply(reply) => if reply.vote_granted {
                    Some((reply.term, args.candidate_id))
                } else {
                    None
                },
                _ => None,
            },
            _ => None,
        },
        Input::Tick => if t.term != s.term {
            Some((t.term, s.id))
        } else {
            None
        },
        Input::Propose(command) => None,
    }
}

/// Over a whole run a node votes for at most one candidate per term.
pub proof fn law_one_candidate_per_term<C>(
    s: NodeState<C>,
    inputs: Seq<Input<C>>,
    i: int,
    j: int,
    term: Term,
    a: NodeId,
    b: NodeId,
)
    requires
        can_run(s, inputs),
        0 <= i < inputs.len(),
        0 <= j < inputs.len(),
        vote_cast(state_at(s, inputs, i), inputs[i]) == Some((term, a)),
        vote_cast(state_at(s, inputs, j), inputs[j]) == Some((term, b)),
    ensures
        a == b,
{
    lemma_state_at_next(s, inputs, i);
    lemma_state_at_next(s, inputs, j);
    if i <= j {
        law_nothing_goes_back(s, inputs, i + 1, j + 1);
    } else {
        law_nothing_goes_back(s, inputs, j + 1, i + 1);
    }
}

/// Those who, in their replies, granted the node their vote in `term`.
pub open spec fn granters<C>(term: Term, inputs: Seq<Input<C>>) -> Set<NodeId>
    decreases inputs.len(),
{
    if inputs.len() == 0 {
        Set::empty()
    } else {
        let before = granters(term, inputs.drop_last());
        match inputs.last() {
            Input::Receive(message) => match message.payload {
                Payload::RequestVoteReply(reply) => if reply.term == term && reply.vote_granted {
                    before.insert(reply.voter)
                } else {
                    before
                },
                _ => before,
            },
            _ => before,
        }
    }
}

/// No vote is granted in a term that the node has not come to.
proof fn lemma_no_grants_ahead<C>(s: NodeState<C>, inputs: Seq<Input<C>>, term: Term)
    requires
        can_run(s, inputs),
        run(s, inputs).0.term < term,
    ensures
        granters(term, inputs) == Set::<NodeId>::empty(),
    decreases inputs.len(),
{
    if inputs.len() > 0 {
        lemma_can_run_drop_last(s, inputs);
        law_term_never_falls(run(s, inputs.drop_last()).0, inputs.last());
        lemma_no_grants_ahead(s, inputs.drop_last(), term);
    }
}

/// A run changes neither a node's id nor its peers nor its timing.
pub proof fn law_place_is_kept<C>(s: NodeState<C>, inputs: Seq<Input<C>>)
    ensures
        run(s, inputs).0.id == s.id,
        run(s, inputs).0.peers == s.peers,
        run(s, inputs).0.config == s.config,
    decreases inputs.len(),
{
    if inputs.len() > 0 {
        law_place_is_kept(s, inputs.drop_last());
    }
}

/// The votes of a candidate are exactly its own and those of the nodes that
/// granted it their vote in its term.
pub proof fn law_votes_are_those_granted<C>(s: NodeState<C>, inputs: Seq<Input<C>>)
    requires
        can_run(s, inputs),
        !(s.standing is Candidate),
        run(s, inputs).0.standing is Candidate,
    ensures
        run(s, inputs).0.votes == granters(run(s, inputs).0.term, inputs).insert(s.id),
    decreases inputs.len(),
{
    let rest = inputs.drop_last();
    let input = inputs.last();
    let t = run(s, rest).0;
    let u = run(s, inputs).0;
    lemma_can_run_drop_last(s, inputs);
    law_place_is_kept(s, rest);
    if t.standing is Candidate && u.term == t.term {
        law_votes_are_those_granted(s, rest);
        assert(u.votes =~= granters(u.term, inputs).insert(s.id));
    } else {
        lemma_no_grants_ahead(s, rest, u.term);
        assert(u.votes =~= granters(u.term, inputs).insert(s.id));
    }
}

/// A reply makes a node leader exactly when it is a candidate, the reply
/// grants a vote of its term, and with that voter those who granted it their
/// vote, itself among them, are a majority. A reply that does not, and is not
/// of a higher term, sends and commits nothing and leaves role, term, vote,
/// log and commit index as they are.
pub proof fn law_majority_of_grants_elects<C>(
    s: NodeState<C>,
    inputs: Seq<Input<C>>,
    reply: RequestVoteReply,
)
    requires
        can_run(s, inputs),
        !(s.standing is Candidate),
        !(run(s, inputs).0.standing is Leader),
        reply.term <= run(s, inputs).0.term,
    ensures
        ({
            let t = run(s, inputs).0;
            let (u, step) = vote_reply_received(t, reply);
            let voters = granters(t.term, inputs).insert(s.id).insert(reply.voter);
            &&& u.standing is Leader <==> t.standing is Candidate && reply.term == t.term
                && reply.vote_granted && voters.len() >= majority_with(s.peers.len())
            &&& !(u.standing is Leader) ==> {
                &&& step == nothing::<C>()
                &&& u == NodeState { votes: u.votes, ..t }
            }
        }),
{
    law_place_is_kept(s, inputs);
    if run(s, inputs).0.standing is Candidate {
        law_votes_are_those_granted(s, inputs);
    }
}

// ---- elections in time ------------------------------------------------------------

/// News from a leader that is not behind, or a vote granted, restarts the
/// election clock.
pub proof fn law_news_restarts_the_clock<C>(s: NodeState<C>, message: Message<C>)
    requires
        match message.payload {
            Payload::AppendEntries(args) => args.term >= s.term,
            Payload::RequestVote(args) => vote_cast(s, Input::Receive(message)) is Some,
            _ => false,
        },
    ensures
        received(s, message).0.election_elapsed == 0,
        message.payload is AppendEntries ==> received(s, message).0.standing is Follower,
        s.standing is Follower ==> received(s, message).0.standing is Follower,
{
}

/// So many ticks and nothing else.
pub open spec fn silence<C>(n: nat) -> Seq<Input<C>> {
    Seq::new(n, |i: int| Input::Tick)
}

proof fn lemma_silence<C>(s: NodeState<C>, n: nat)
    requires
        !(s.standing is Leader),
        s.election_elapsed == 0,
        n == 0 || n < s.election_timeout,
    ensures
        run(s, silence(n)).0 == (NodeState { election_elapsed: n as u64, ..s }),
        run(s, silence(n)).1.len() == n,
        forall|i: int|
            #![trigger run(s, silence(n)).1[i]]
            0 <= i < n ==> run(s, silence(n)).1[i] == nothing::<C>(),
    decreases n,
{
    if n > 0 {
        let before = (n - 1) as nat;
        lemma_silence(s, before);
        assert(silence::<C>(n).drop_last() =~= silence(before));
        let steps = run(s, silence(n)).1;
        assert(steps =~= run(s, silence(before)).1.push(nothing()));
        assert forall|i: int| #![trigger steps[i]] 0 <= i < n implies steps[i]
            == nothing::<C>() by {
            if i < before {
                assert(steps[i] == run(s, silence(before)).1[i]);
            }
        }
    }
}

/// A node that does not lead and hears nothing from a fresh clock on stands
/// for election at one tick between the minimum and the maximum. The result
/// is the number of that tick; every earlier one does nothing but count.
pub proof fn law_silence_ends_in_an_election<C>(s: NodeState<C>) -> (first: nat)
    requires
        sound_node(s),
        !(s.standing is Leader),
        s.election_elapsed == 0,
        1 <= s.config.min_election_ticks,
        s.term < u64::MAX,
    ensures
        s.config.min_election_ticks <= first <= s.config.max_election_ticks,
        forall|n: nat|
            #![trigger silence::<C>(n)]
            n < first ==> run(s, silence(n)).0 == (NodeState { election_elapsed: n as u64, ..s })
                && forall|i: int|
                #![trigger run(s, silence(n)).1[i]]
                0 <= i < n ==> run(s, silence(n)).1[i] == nothing::<C>(),
        run(s, silence(first)).0.term == s.term + 1,
        run(s, silence(first)).0.voted_for == Some(s.id),
{
    let first = s.election_timeout as nat;
    assert forall|n: nat| #![trigger silence::<C>(n)] n < first implies run(s, silence(n)).0 == (
    NodeState { election_elapsed: n as u64, ..s }) && forall|i: int|
        #![trigger run(s, silence(n)).1[i]]
        0 <= i < n ==> run(s, silence(n)).1[i] == nothing::<C>() by {
        lemma_silence(s, n);
    }
    let before = (first - 1) as nat;
    lemma_silence(s, before);
    assert(silence::<C>(first).drop_last() =~= silence(before));
    first
}

// ---- a reign ----------------------------------------------------------------------

/// A leader at the start of its reign: it keeps books on its peers, has
/// heard of no match from any of them, and its heartbeat clock starts.
pub open spec fn newly_in_office<C>(s: NodeState<C>) -> bool {
    &&& s.heartbeat_elapsed == 0
    &&& s.standing matches Standing::Leader { next_index, match_index }
    &&& forall|peer: NodeId| #[trigger] next_index.contains_key(peer) <==> s.peers.contains(peer)
    &&& forall|peer: NodeId| #[trigger] match_index.contains_key(peer) <==> s.peers.contains(peer)
    &&& forall|peer: NodeId|
        #![trigger match_index[peer]]
        match_index.contains_key(peer) ==> match_index[peer] == 0
}

/// Whatever makes a node leader starts a reign.
pub proof fn law_winning_starts_a_reign<C>(s: NodeState<C>, input: Input<C>)
    requires
        !(s.standing is Leader),
        outcome(s, input).0.standing is Leader,
    ensures
        newly_in_office(outcome(s, input).0),
{
}

/// The node leads all the time.
pub open spec fn leads_throughout<C>(s: NodeState<C>, inputs: Seq<Input<C>>) -> bool {
    forall|k: int|
        0 <= k <= inputs.len() ==> (#[trigger] state_at(s, inputs, k)).standing is Leader
}

proof fn lemma_leads_drop_last<C>(s: NodeState<C>, inputs: Seq<Input<C>>)
    requires
        leads_throughout(s, inputs),
        inputs.len() > 0,
    ensures
        leads_throughout(s, inputs.drop_last()),
        run(s, inputs.drop_last()).0.standing is Leader,
        run(s, inputs).0.standing is Leader,
{
    let rest = inputs.drop_last();
    assert forall|k: int| 0 <= k <= rest.len() implies (#[trigger] state_at(
        s,
        rest,
        k,
    )).standing is Leader by {
        lemma_state_at_drop_last(s, inputs, k);
        assert(state_at(s, inputs, k).standing is Leader);
    }
    lemma_state_at_end(s, rest);
    lemma_state_at_end(s, inputs);
    assert(state_at(s, rest, rest.len() as int).standing is Leader);
    assert(state_at(s, inputs, inputs.len() as int).standing is Leader);
}

/// The highest index that `peer` acknowledged with success to the leader of
/// `term`; `0` if it acknowledged none.
pub open spec fn acknowledged<C>(term: Term, peer: NodeId, inputs: Seq<Input<C>>) -> LogIndex
    decreases inputs.len(),
{
    if inputs.len() == 0 {
        0
    } else {
        let before = acknowledged(term, peer, inputs.drop_last());
        match inputs.last() {
            Input::Receive(message) => match message.payload {
                Payload::AppendEntriesReply(reply) => if reply.term == term && reply.success
                    && reply.follower == peer {
                    max_of(before, reply.match_index)
                } else {
                    before
                },
                _ => before,
            },
            _ => before,
        }
    }
}

/// As long as a node leads, its term stays, and what it knows a peer to match
/// is the highest index that the peer acknowledged since the election: an
/// old, smaller acknowledgement never moves a peer back.
pub proof fn law_matches_are_what_was_acknowledged<C>(s: NodeState<C>, inputs: Seq<Input<C>>)
    requires
        newly_in_office(s),
        leads_throughout(s, inputs),
    ensures
        run(s, inputs).0.term == s.term,
        run(s, inputs).0.standing matches Standing::Leader { next_index, match_index } && (forall|
            peer: NodeId,
        | #[trigger]
            next_index.contains_key(peer) <==> s.peers.contains(peer)) && (forall|peer: NodeId|
         #[trigger]
            match_index.contains_key(peer) <==> s.peers.contains(peer)) && (forall|peer: NodeId|
            #![trigger match_index[peer]]
            s.peers.contains(peer) ==> match_index[peer] == acknowledged(s.term, peer, inputs)),
    decreases inputs.len(),
{
    if inputs.len() > 0 {
        lemma_leads_drop_last(s, inputs);
        law_matches_are_what_was_acknowledged(s, inputs.drop_last());
        law_place_is_kept(s, inputs.drop_last());
    }
}

/// The entries behind the first `m`, as many as fit into a message.
pub open spec fn batch_behind<C>(log: Seq<LogEntry<C>>, m: int) -> Seq<LogEntry<C>> {
    let rest = log.skip(m);
    if rest.len() > MAX_BATCH {
        rest.take(MAX_BATCH as int)
    } else {
        rest
    }
}

/// A success is answered at once with what comes right behind the highest
/// index that the peer acknowledged since the election, or with nothing when
/// that is the end of the log. Log, term and role stay as they are.
pub proof fn law_follow_up_starts_behind_the_match<C>(
    s: NodeState<C>,
    inputs: Seq<Input<C>>,
    reply: AppendEntriesReply,
    m: LogIndex,
)
    requires
        newly_in_office(s),
        leads_throughout(s, inputs),
        reply.success,
        reply.term == s.term,
        s.peers.contains(reply.follower),
        m == max_of(acknowledged(s.term, reply.follower, inputs), reply.match_index),
        m < u64::MAX,
    ensures
        ({
            let t = run(s, inputs).0;
            let (u, step) = append_reply_received(t, reply);
            &&& m < t.log.len() ==> step.effects == seq![
                Message {
                    from: s.id,
                    to: reply.follower,
                    payload: Payload::AppendEntries(
                        Append {
                            term: s.term,
                            leader_id: s.id,
                            prev_log_index: m,
                            prev_log_term: term_at(t.log, m as int)->0,
                            entries: batch_behind(t.log, m as int),
                            leader_commit: t.commit_index,
                        },
                    ),
                },
            ]
            &&& m >= t.log.len() ==> step.effects.len() == 0
            &&& u.log == t.log
            &&& u.term == t.term
            &&& u.standing is Leader
        }),
{
    law_matches_are_what_was_acknowledged(s, inputs);
    law_place_is_kept(s, inputs);
}

/// How many of the inputs are ticks.
pub open spec fn ticks_in<C>(inputs: Seq<Input<C>>) -> nat
    decreases inputs.len(),
{
    if inputs.len() == 0 {
        0
    } else {
        ticks_in(inputs.drop_last()) + (if inputs.last() is Tick {
            1nat
        } else {
            0nat
        })
    }
}

/// The ticks from one heartbeat to the next.
pub open spec fn beat(config: RaftConfig) -> nat {
    if config.heartbeat_ticks < 1 {
        1
    } else {
        config.heartbeat_ticks as nat
    }
}

proof fn lemma_next_remainder(n: nat, h: nat)
    requires
        h > 0,
    ensures
        (n + 1) % h == (if n % h + 1 == h {
            0
        } else {
            n % h + 1
        }),
{
    lemma_fundamental_div_mod(n as int, h as int);
    let q = n as int / h as int;
    let r = n as int % h as int;
    if r + 1 == h {
        assert(n + 1 == (q + 1) * h) by (nonlinear_arith)
            requires
                n == h * q + r,
                r + 1 == h,
        ;
        lemma_fundamental_div_mod_converse((n + 1) as int, h as int, q + 1, 0);
    } else {
        assert(n + 1 == q * h + (r + 1)) by (nonlinear_arith)
            requires
                n == h * q + r,
        ;
        lemma_fundamental_div_mod_converse((n + 1) as int, h as int, q, r + 1);
    }
}

proof fn lemma_heartbeat_clock<C>(s: NodeState<C>, inputs: Seq<Input<C>>)
    requires
        newly_in_office(s),
        leads_throughout(s, inputs),
    ensures
        run(s, inputs).0.heartbeat_elapsed == ticks_in(inputs) % beat(s.config),
    decreases inputs.len(),
{
    if inputs.len() > 0 {
        let rest = inputs.drop_last();
        lemma_leads_drop_last(s, inputs);
        lemma_heartbeat_clock(s, rest);
        law_place_is_kept(s, rest);
        lemma_next_remainder(ticks_in(rest), beat(s.config));
    }
}

/// As long as a node leads, every `heartbeat_ticks`-th tick since its election
/// sends one AppendEntries to each peer, in the order of the peers, and no
/// other tick sends anything; what comes in between does not shift the beat.
/// No tick of a leader commits anything or changes log, term, vote, role or
/// commit index.
pub proof fn law_heartbeats_keep_the_beat<C>(s: NodeState<C>, inputs: Seq<Input<C>>, k: nat)
    requires
        newly_in_office(s),
        leads_throughout(s, inputs),
        k == ticks_in(inputs) + 1,
    ensures
        ({
            let t = run(s, inputs).0;
            let (u, step) = ticked(t);
            &&& k % beat(s.config) == 0 ==> {
                &&& step.effects == append_requests(NodeState { heartbeat_elapsed: 0, ..t })
                &&& step.effects.len() == s.peers.len()
                &&& forall|i: int|
                    #![trigger step.effects[i]]
                    0 <= i < s.peers.len() ==> step.effects[i].to == s.peers[i]
                        && step.effects[i].payload is AppendEntries
            }
            &&& k % beat(s.config) != 0 ==> step.effects.len() == 0
            &&& step.committed.len() == 0
            &&& u == NodeState { heartbeat_elapsed: u.heartbeat_elapsed, ..t }
        }),
{
    lemma_heartbeat_clock(s, inputs);
    law_place_is_kept(s, inputs);
    lemma_state_at_end(s, inputs);
    assert(state_at(s, inputs, inputs.len() as int).standing is Leader);
    lemma_next_remainder(ticks_in(inputs), beat(s.config));
}

} // verus!
