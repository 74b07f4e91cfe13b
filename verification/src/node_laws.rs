//! What holds of a single node, whatever it is told.
//!
//! An [`Input`] is anything a node reacts to; [`outcome`] is what it does
//! then. The laws below speak of every input in every state.

use vstd::prelude::*;

use crate::cluster_state::settled;
use crate::protocol::{
    append_received, appended, backtracked, can_receive, can_tick, commands_between,
    commit_advanced, committable, divergence, elected, end_of_term, fits, is_quorum_index,
    majority_with, merged, nodes_reaching, nothing, proposed, quorum_index, received, run_start,
    sound_node, ticked, up_to_date, vote_requested, wins_with, NodeState, Step,
};
use crate::rpc::{Append, LogIndex, Message, NodeId, Payload, RequestVoteArgs, Term};
use crate::storage::{prefix_before, term_at, LogCommand, LogEntry};

verus! {

/// Anything a node reacts to.
pub enum Input<C> {
    /// One logical unit of time has passed.
    Tick,
    /// A message arrived.
    Receive(Message<C>),
    /// A client proposed a command; only a leader takes it in.
    Propose(C),
}

/// What a node does with an input.
pub open spec fn outcome<C>(s: NodeState<C>, input: Input<C>) -> (NodeState<C>, Step<C>) {
    match input {
        Input::Tick => ticked(s),
        Input::Receive(message) => received(s, message),
        Input::Propose(command) => if s.standing is Leader {
            proposed(s, command)
        } else {
            (s, nothing())
        },
    }
}

// ---- applying ---------------------------------------------------------------------

/// A node hands out the commands of exactly those entries that it has newly
/// applied, in log order and each once, and never takes an application back.
pub proof fn law_committed_is_applied<C>(s: NodeState<C>, input: Input<C>)
    ensures
        s.last_applied <= outcome(s, input).0.last_applied,
        outcome(s, input).1.committed == commands_between(
            outcome(s, input).0.log,
            s.last_applied as int,
            outcome(s, input).0.last_applied as int,
        ),
{
}

/// A node has always applied what it knows to be committed.
pub proof fn law_commits_are_applied<C>(s: NodeState<C>, input: Input<C>)
    requires
        settled(s),
    ensures
        settled(outcome(s, input).0),
{
}

/// Only commands are handed out, never a no-op: each comes from an entry of
/// the log that holds it.
pub proof fn law_no_ops_are_not_surfaced<C>(log: Seq<LogEntry<C>>, from: int, to: int, i: int)
    requires
        0 <= from,
        0 <= i < commands_between(log, from, to).len(),
    ensures
        exists|k: int|
            from < k <= to && k <= log.len() && (#[trigger] log[k - 1]).command
                == LogCommand::Command(commands_between(log, from, to)[i].command)
                && log[k - 1].term == commands_between(log, from, to)[i].term && log[k - 1].index
                == commands_between(log, from, to)[i].index,
    decreases to - from,
{
    let before = commands_between(log, from, to - 1);
    if i < before.len() {
        law_no_ops_are_not_surfaced(log, from, to - 1, i);
        let k = choose|k: int|
            from < k <= to - 1 && k <= log.len() && (#[trigger] log[k - 1]).command
                == LogCommand::Command(before[i].command) && log[k - 1].term == before[i].term
                && log[k - 1].index == before[i].index;
        assert(log[k - 1].command == LogCommand::Command(commands_between(log, from, to)[i].command));
    } else {
        assert(log[to - 1].command == LogCommand::Command(
            commands_between(log, from, to)[i].command,
        ));
    }
}

// ---- terms and votes --------------------------------------------------------------

/// A node's term never falls.
pub proof fn law_term_never_falls<C>(s: NodeState<C>, input: Input<C>)
    requires
        input is Tick ==> can_tick(s),
    ensures
        s.term <= outcome(s, input).0.term,
{
}

/// A node votes for at most one candidate per term.
pub proof fn law_one_vote_per_term<C>(s: NodeState<C>, input: Input<C>)
    requires
        input is Tick ==> can_tick(s),
        s.voted_for is Some,
        outcome(s, input).0.term == s.term,
    ensures
        outcome(s, input).0.voted_for == s.voted_for,
{
}

/// A vote goes only to a candidate of a term that is not behind, whose log is
/// at least as up to date as the voter's.
pub proof fn law_votes_go_to_up_to_date_logs<C>(s: NodeState<C>, from: NodeId, args: RequestVoteArgs)
    requires
        ({
            let (t, step) = vote_requested(s, from, args);
            step.effects[0].payload matches Payload::RequestVoteReply(reply) && reply.vote_granted
        }),
    ensures
        args.term >= s.term,
        up_to_date(args.last_log_term, args.last_log_index, s.log),
        vote_requested(s, from, args).0.voted_for == Some(args.candidate_id),
        vote_requested(s, from, args).0.term == args.term,
{
}

/// A message of a higher term makes any node a follower in that term.
pub proof fn law_higher_term_ends_office<C>(s: NodeState<C>, message: Message<C>, term: u64)
    requires
        match message.payload {
            Payload::RequestVote(args) => args.term == term,
            Payload::RequestVoteReply(reply) => reply.term == term,
            Payload::AppendEntries(args) => args.term == term,
            Payload::AppendEntriesReply(reply) => reply.term == term,
        },
        term > s.term,
    ensures
        received(s, message).0.term == term,
        received(s, message).0.standing is Follower,
{
}

/// Requests of an earlier term are refused and change nothing.
pub proof fn law_stale_requests_are_refused<C>(s: NodeState<C>, message: Message<C>)
    requires
        match message.payload {
            Payload::RequestVote(args) => args.term < s.term,
            Payload::AppendEntries(args) => args.term < s.term,
            _ => false,
        },
    ensures
        received(s, message).0 == s,
        received(s, message).1.committed.len() == 0,
        received(s, message).1.effects.len() == 1,
        match received(s, message).1.effects[0].payload {
            Payload::RequestVoteReply(reply) => !reply.vote_granted && reply.term == s.term,
            Payload::AppendEntriesReply(reply) => !reply.success && reply.term == s.term,
            _ => false,
        },
{
}

/// A candidate becomes leader exactly when a granted vote of its term brings
/// it to a majority.
pub proof fn law_majority_elects<C>(s: NodeState<C>, message: Message<C>)
    requires
        s.standing is Candidate,
    ensures
        received(s, message).0.standing is Leader <==> (message.payload matches
            Payload::RequestVoteReply(reply) && wins_with(s, reply)),
{
}

// ---- the log ----------------------------------------------------------------------

/// A leader never overwrites its log: as long as it leads in its term, the
/// log only grows.
pub proof fn law_leader_appends_only<C>(s: NodeState<C>, input: Input<C>)
    requires
        s.standing is Leader,
        outcome(s, input).0.standing is Leader,
        outcome(s, input).0.term == s.term,
    ensures
        s.log.len() <= outcome(s, input).0.log.len(),
        outcome(s, input).0.log.take(s.log.len() as int) == s.log,
{
    let t = outcome(s, input).0;
    assert(t.log.take(s.log.len() as int) =~= s.log);
}

/// Up to where the log diverges from what was sent, it holds entries of the
/// terms sent; there it does not.
pub proof fn lemma_divergence<C>(
    log: Seq<LogEntry<C>>,
    prev: int,
    entries: Seq<LogEntry<C>>,
    offset: int,
)
    requires
        0 <= offset <= entries.len(),
    ensures
        offset <= divergence(log, prev, entries, offset) <= entries.len(),
        forall|k: int|
            offset <= k < divergence(log, prev, entries, offset) ==> term_at(log, prev + 1 + k)
                == Some((#[trigger] entries[k]).term),
        divergence(log, prev, entries, offset) < entries.len() ==> term_at(
            log,
            prev + 1 + divergence(log, prev, entries, offset),
        ) != Some(entries[divergence(log, prev, entries, offset)].term),
    decreases entries.len() - offset,
{
    if offset < entries.len() && term_at(log, prev + 1 + offset) == Some(entries[offset].term) {
        lemma_divergence(log, prev, entries, offset + 1);
    }
}

/// On success a follower's log holds, at every index sent, an entry of the
/// term sent; what stood before those indices is untouched.
pub proof fn law_accepted_entries_are_held<C>(
    log: Seq<LogEntry<C>>,
    prev: int,
    entries: Seq<LogEntry<C>>,
)
    requires
        0 <= prev <= log.len(),
    ensures
        merged(log, prev, entries).len() >= prev + entries.len(),
        forall|k: int|
            0 <= k < entries.len() ==> merged(log, prev, entries)[prev + k].term
                == (#[trigger] entries[k]).term,
        forall|j: int|
            #![trigger merged(log, prev, entries)[j]]
            0 <= j < prev ==> merged(log, prev, entries)[j] == log[j],
{
    let new = merged(log, prev, entries);
    let d = divergence(log, prev, entries, 0);
    lemma_divergence(log, prev, entries, 0);
    assert(prev + d <= log.len()) by {
        if d > 0 {
            assert(term_at(log, prev + 1 + (d - 1)) == Some(entries[d - 1].term));
        }
    }
    if d < entries.len() {
        let kept = prefix_before(log, prev + 1 + d);
        assert(kept =~= log.take(prev + d));
    }
    assert forall|k: int| 0 <= k < entries.len() implies new[prev + k].term == (
    #[trigger] entries[k]).term by {
        if k < d {
            assert(term_at(log, prev + 1 + k) == Some(entries[k].term));
        } else {
            assert(entries.skip(d)[k - d] == entries[k]);
        }
    }
}

/// Taking in the same entries twice is the same as taking them in once.
pub proof fn law_merge_is_idempotent<C>(
    log: Seq<LogEntry<C>>,
    prev: int,
    entries: Seq<LogEntry<C>>,
)
    requires
        0 <= prev <= log.len(),
    ensures
        merged(merged(log, prev, entries), prev, entries) == merged(log, prev, entries),
{
    let new = merged(log, prev, entries);
    law_accepted_entries_are_held(log, prev, entries);
    lemma_no_divergence(new, prev, entries, 0);
}

/// A request that arrives twice in a row is answered twice the same, and the
/// second time only restarts the election clock: nothing more is committed,
/// and log, term, vote, role, leader hint, commit index and what was applied
/// stay as they are.
pub proof fn law_append_twice_is_once<C>(s: NodeState<C>, from: NodeId, args: Append<C>)
    requires
        fits(s, args) ==> args.prev_log_index + args.entries.len() <= u64::MAX,
    ensures
        ({
            let (t, a) = append_received(s, from, args);
            let (u, b) = append_received(t, from, args);
            &&& b.effects == a.effects
            &&& b.committed.len() == 0
            &&& u.log == t.log
            &&& u.term == t.term
            &&& u.voted_for == t.voted_for
            &&& u.standing == t.standing
            &&& u.leader_id == t.leader_id
            &&& u.commit_index == t.commit_index
            &&& u.last_applied == t.last_applied
            &&& u.votes == t.votes
        }),
{
    let (t, a) = append_received(s, from, args);
    let (u, b) = append_received(t, from, args);
    if fits(s, args) {
        let prev = args.prev_log_index as int;
        law_merge_is_idempotent(s.log, prev, args.entries);
        law_accepted_entries_are_held(s.log, prev, args.entries);
        if prev > 0 {
            assert(t.log[prev - 1] == s.log[prev - 1]);
        }
        assert(fits(t, args));
    }
    assert(b.effects =~= a.effects);
}

proof fn lemma_no_divergence<C>(
    log: Seq<LogEntry<C>>,
    prev: int,
    entries: Seq<LogEntry<C>>,
    offset: int,
)
    requires
        0 <= prev,
        0 <= offset <= entries.len(),
        prev + entries.len() <= log.len(),
        forall|k: int|
            0 <= k < entries.len() ==> log[prev + k].term == (#[trigger] entries[k]).term,
    ensures
        divergence(log, prev, entries, offset) == entries.len(),
    decreases entries.len() - offset,
{
    if offset < entries.len() {
        assert(log[prev + offset].term == entries[offset].term);
        lemma_no_divergence(log, prev, entries, offset + 1);
    }
}

/// The index reported for a conflict starts the run of the conflicting term:
/// everything from there to the index asked about has that term, and the
/// entry before has another.
pub proof fn law_conflict_starts_a_run<C>(log: Seq<LogEntry<C>>, index: int)
    requires
        1 <= index <= log.len(),
    ensures
        1 <= run_start(log, index) <= index,
        forall|j: int|
            #![trigger log[j]]
            run_start(log, index) - 1 <= j < index ==> log[j].term == log[index - 1].term,
        run_start(log, index) > 1 ==> log[run_start(log, index) - 2].term != log[index - 1].term,
    decreases index,
{
    if 1 < index && log[index - 2].term == log[index - 1].term {
        law_conflict_starts_a_run(log, index - 1);
    }
}

/// After a conflict a leader goes on behind its last entry of the conflicting
/// term; where it has none, or the follower named none, it goes on from the
/// index that the follower named.
pub proof fn law_backtracking_finds_the_term<C>(
    log: Seq<LogEntry<C>>,
    term: Term,
    conflict_index: LogIndex,
)
    requires
        log.len() < u64::MAX,
        forall|i: int, j: int|
            #![trigger log[i], log[j]]
            0 <= i <= j < log.len() ==> log[i].term <= log[j].term,
    ensures
        backtracked(log, None, conflict_index) == conflict_index,
        forall|i: int|
            #![trigger log[i]]
            0 <= i < log.len() && log[i].term == term && (i + 1 == log.len() || log[i + 1].term
                != term) ==> backtracked(log, Some(term), conflict_index) == i + 2,
        (forall|i: int| #![trigger log[i]] 0 <= i < log.len() ==> log[i].term != term)
            ==> backtracked(log, Some(term), conflict_index) == conflict_index,
{
    lemma_end_of_term(log, term, conflict_index, log.len() as int);
    assert forall|i: int|
        #![trigger log[i]]
        0 <= i < log.len() && log[i].term == term && (i + 1 == log.len() || log[i + 1].term
            != term) implies backtracked(log, Some(term), conflict_index) == i + 2 by {
        assert forall|j: int| #![trigger log[j]] i < j < log.len() implies log[j].term > term by {
            assert(log[i].term <= log[i + 1].term);
            assert(log[i + 1].term <= log[j].term);
        }
    }
}

proof fn lemma_end_of_term<C>(
    log: Seq<LogEntry<C>>,
    term: Term,
    fallback: LogIndex,
    index: int,
)
    requires
        index <= log.len() < u64::MAX,
        forall|i: int, j: int|
            #![trigger log[i], log[j]]
            0 <= i <= j < log.len() ==> log[i].term <= log[j].term,
    ensures
        forall|i: int|
            #![trigger log[i]]
            0 <= i < index && log[i].term == term && (forall|j: int|
                #![trigger log[j]]
                i < j < index ==> log[j].term > term) ==> end_of_term(log, term, fallback, index)
                == i + 2,
        (forall|i: int| #![trigger log[i]] 0 <= i < index ==> log[i].term != term) ==> end_of_term(
            log,
            term,
            fallback,
            index,
        ) == fallback,
    decreases index,
{
    if index > 0 {
        lemma_end_of_term(log, term, fallback, index - 1);
        let last = log[index - 1];
        assert forall|i: int|
            #![trigger log[i]]
            0 <= i < index && log[i].term == term && (forall|j: int|
                #![trigger log[j]]
                i < j < index ==> log[j].term > term) implies end_of_term(
            log,
            term,
            fallback,
            index,
        ) == i + 2 by {
            assert(log[i].term <= log[index - 1].term);
        }
    }
}

// ---- committing -------------------------------------------------------------------

/// The commit rule: a leader moves its commit index only forward, only to an
/// entry of its own current term, and only when a majority holds the log up
/// to there. In particular an entry of an earlier term is never committed by
/// counting replicas alone.
pub proof fn law_commits_only_current_term<C>(s: NodeState<C>)
    requires
        commit_advanced(s).0.commit_index != s.commit_index,
    ensures
        s.standing is Leader,
        commit_advanced(s).0.commit_index > s.commit_index,
        term_at(s.log, commit_advanced(s).0.commit_index as int) == Some(s.term),
        nodes_reaching(
            s.standing->Leader_match_index,
            s.log.len(),
            commit_advanced(s).0.commit_index as int,
        ) >= majority_with(s.peers.len()),
{
    let match_index = s.standing->Leader_match_index;
    let majority = majority_with(s.peers.len());
    let index = committable(s)->0;
    assert(quorum_index(match_index, s.log.len(), majority) == Some(index));
    assert(is_quorum_index(match_index, s.log.len(), majority, index));
}

/// A leader commits as soon as it may: once the entry at the highest index
/// that a majority holds is of its own term, that index is committed.
pub proof fn law_commits_once_majority_holds<C>(s: NodeState<C>, index: u64)
    requires
        s.standing is Leader,
        is_quorum_index(
            s.standing->Leader_match_index,
            s.log.len(),
            majority_with(s.peers.len()),
            index,
        ),
        index > s.commit_index,
        term_at(s.log, index as int) == Some(s.term),
    ensures
        commit_advanced(s).0.commit_index == index,
{
    crate::quorum::lemma_quorum_index_is(
        s.standing->Leader_match_index,
        s.log.len(),
        majority_with(s.peers.len()),
        index,
    );
}

/// The node accepts entries that end below what it has committed, from a
/// leader that has committed more: a batch that was overtaken by later ones.
pub open spec fn is_overtaken<C>(s: NodeState<C>, message: Message<C>) -> bool {
    &&& message.payload matches Payload::AppendEntries(args)
    &&& fits(s, args)
    &&& args.prev_log_index + args.entries.len() < s.commit_index < args.leader_commit
}

/// A node's commit index never falls, except when it accepts a batch that was
/// overtaken: then, and only then, it falls back to the end of the batch.
pub proof fn law_commit_index_never_falls<C>(s: NodeState<C>, input: Input<C>)
    requires
        input matches Input::Receive(message) ==> can_receive(s, message),
    ensures
        outcome(s, input).0.commit_index < s.commit_index <==> (input matches Input::Receive(
            message,
        ) && is_overtaken(s, message)),
{
}

/// A single node commits at once what it proposes: its own log is a majority.
pub proof fn law_single_node_commits_at_once<C>(s: NodeState<C>, command: C)
    requires
        s.standing is Leader,
        s.standing->Leader_match_index == Map::<NodeId, u64>::empty(),
        s.peers.len() == 0,
        s.log.len() < u64::MAX,
        s.commit_index <= s.log.len(),
    ensures
        proposed(s, command).0.commit_index == s.log.len() + 1,
{
    let t = appended(s, LogCommand::Command(command));
    let match_index = t.standing->Leader_match_index;
    let last = t.log.len() as u64;
    assert forall|index: int| #[trigger]
        crate::protocol::peers_reaching(match_index, index) =~= Set::empty() by {}
    assert(is_quorum_index(match_index, t.log.len(), 1, last)) by {
        assert(crate::protocol::peers_reaching(match_index, last as int) =~= Set::empty());
        assert forall|higher: u64| last < higher implies #[trigger] nodes_reaching(
            match_index,
            t.log.len(),
            higher as int,
        ) < 1 by {
            assert(crate::protocol::peers_reaching(match_index, higher as int) =~= Set::empty());
        }
    }
    law_commits_once_majority_holds(t, last);
}

// ---- replication ------------------------------------------------------------------

/// A leader sends to every peer once every heartbeat period.
pub proof fn law_heartbeats_reach_all_peers<C>(s: NodeState<C>, i: int)
    requires
        s.standing is Leader,
        s.heartbeat_elapsed + 1 >= s.config.heartbeat_ticks,
        0 <= i < s.peers.len(),
    ensures
        ticked(s).1.effects.len() == s.peers.len(),
        ticked(s).1.effects[i].to == s.peers[i],
        ticked(s).1.effects[i].payload is AppendEntries,
{
}

/// A node that does not lead stands for election after no fewer than the
/// minimum and no more than the maximum of ticks without news.
pub proof fn law_elections_keep_their_time<C>(s: NodeState<C>)
    requires
        sound_node(s),
        !(s.standing is Leader),
        s.term < u64::MAX,
    ensures
        s.election_elapsed + 1 < s.config.min_election_ticks ==> ticked(s) == (
            (NodeState { election_elapsed: (s.election_elapsed + 1) as u64, ..s }),
            nothing::<C>(),
        ),
        s.election_elapsed + 1 >= s.config.max_election_ticks ==> ticked(s).0.term == s.term + 1,
{
}

/// A node asks every peer for its vote when its election timer runs out.
pub proof fn law_elections_ask_all_peers<C>(s: NodeState<C>, i: int)
    requires
        !(s.standing is Leader),
        s.election_elapsed + 1 >= s.election_timeout,
        0 <= i < s.peers.len(),
        s.term < u64::MAX,
    ensures
        ticked(s).0.term == s.term + 1,
        ticked(s).0.standing is Candidate,
        ticked(s).0.voted_for == Some(s.id),
        ticked(s).1.effects[i].to == s.peers[i],
        ticked(s).1.effects[i].payload is RequestVote,
{
}

/// A new leader's first entry is a no-op of its own term, at the end of its
/// log, and goes to every peer.
pub proof fn law_new_leader_appends_no_op<C>(s: NodeState<C>)
    requires
        s.log.len() < u64::MAX,
    ensures
        elected(s).0.standing is Leader,
        elected(s).0.leader_id == Some(s.id),
        elected(s).0.log == s.log.push(
            LogEntry { term: s.term, index: (s.log.len() + 1) as u64, command: LogCommand::NoOp },
        ),
        elected(s).1.effects.len() == s.peers.len(),
{
}

} // verus!
