//! RPC message types (RequestVote, AppendEntries) as defined in the Raft
//! paper, Figure 2. These are plain data, transport-agnostic: this crate
//! delivers them via an in-memory simulated network (see [`crate::sim`]),
//! not sockets or gRPC.
//!
//! An [`Envelope`] may hold a `Vec` of log entries, so contracts speak of its
//! view, a [`Message`], in which that vector is a sequence.

use vstd::prelude::*;

use crate::storage::LogEntry;

verus! {

pub type NodeId = u64;

pub type Term = u64;

pub type LogIndex = u64;

#[derive(Debug, Clone, PartialEq, Eq)]
pub struct RequestVoteArgs {
    pub term: Term,
    pub candidate_id: NodeId,
    pub last_log_index: LogIndex,
    pub last_log_term: Term,
}

#[derive(Debug, Clone, PartialEq, Eq)]
pub struct RequestVoteReply {
    pub term: Term,
    pub vote_granted: bool,
    pub voter: NodeId,
}

#[derive(Debug, Clone, PartialEq, Eq)]
pub struct AppendEntriesArgs<C> {
    pub term: Term,
    pub leader_id: NodeId,
    pub prev_log_index: LogIndex,
    pub prev_log_term: Term,
    pub entries: Vec<LogEntry<C>>,
    pub leader_commit: LogIndex,
}

#[derive(Debug, Clone, PartialEq, Eq)]
pub struct AppendEntriesReply {
    pub term: Term,
    pub success: bool,
    pub follower: NodeId,
    /// Fast conflict backtracking (paper §5.3 optimization). When
    /// `success == false` because of a log mismatch, the leader can jump
    /// `next_index` straight to `conflict_index` (or, if `conflict_term` is
    /// known, to the end of that term in its own log) instead of
    /// decrementing by one entry per round trip.
    pub conflict_term: Option<Term>,
    pub conflict_index: LogIndex,
    /// Index the follower's log now matches the leader's up to, on success.
    pub match_index: LogIndex,
}

#[derive(Debug, Clone, PartialEq, Eq)]
pub enum Rpc<C> {
    RequestVote(RequestVoteArgs),
    RequestVoteReply(RequestVoteReply),
    AppendEntries(AppendEntriesArgs<C>),
    AppendEntriesReply(AppendEntriesReply),
}

#[derive(Debug, Clone, PartialEq, Eq)]
pub struct Envelope<C> {
    pub from: NodeId,
    pub to: NodeId,
    pub rpc: Rpc<C>,
}

/// The view of [`AppendEntriesArgs`].
#[verifier::ext_equal]
pub struct Append<C> {
    pub term: Term,
    pub leader_id: NodeId,
    pub prev_log_index: LogIndex,
    pub prev_log_term: Term,
    pub entries: Seq<LogEntry<C>>,
    pub leader_commit: LogIndex,
}

/// The view of [`Rpc`].
#[verifier::ext_equal]
pub enum Payload<C> {
    RequestVote(RequestVoteArgs),
    RequestVoteReply(RequestVoteReply),
    AppendEntries(Append<C>),
    AppendEntriesReply(AppendEntriesReply),
}

/// The view of [`Envelope`].
#[verifier::ext_equal]
pub struct Message<C> {
    pub from: NodeId,
    pub to: NodeId,
    pub payload: Payload<C>,
}

impl<C> View for AppendEntriesArgs<C> {
    type V = Append<C>;

    open spec fn view(&self) -> Append<C> {
        Append {
            term: self.term,
            leader_id: self.leader_id,
            prev_log_index: self.prev_log_index,
            prev_log_term: self.prev_log_term,
            entries: self.entries@,
            leader_commit: self.leader_commit,
        }
    }
}

impl<C> View for Rpc<C> {
    type V = Payload<C>;

    open spec fn view(&self) -> Payload<C> {
        match *self {
            Rpc::RequestVote(args) => Payload::RequestVote(args),
            Rpc::RequestVoteReply(reply) => Payload::RequestVoteReply(reply),
            Rpc::AppendEntries(args) => Payload::AppendEntries(args@),
            Rpc::AppendEntriesReply(reply) => Payload::AppendEntriesReply(reply),
        }
    }
}

impl<C> View for Envelope<C> {
    type V = Message<C>;

    open spec fn view(&self) -> Message<C> {
        Message { from: self.from, to: self.to, payload: self.rpc@ }
    }
}

/// The views of a sequence of envelopes, in order.
pub open spec fn messages<C>(envelopes: Seq<Envelope<C>>) -> Seq<Message<C>> {
    Seq::new(envelopes.len(), |i: int| envelopes[i]@)
}

/// A message says what its envelope says, field by field.
pub proof fn law_messages_are_read<C>(envelope: Envelope<C>)
    ensures
        envelope@.from == envelope.from,
        envelope@.to == envelope.to,
        match envelope.rpc {
            Rpc::RequestVote(args) => envelope@.payload matches Payload::RequestVote(read) && read
                == args,
            Rpc::RequestVoteReply(reply) => envelope@.payload matches Payload::RequestVoteReply(
                read,
            ) && read == reply,
            Rpc::AppendEntriesReply(reply) => envelope@.payload matches Payload::AppendEntriesReply(
                read,
            ) && read == reply,
            Rpc::AppendEntries(args) => envelope@.payload matches Payload::AppendEntries(read)
                && read.term == args.term && read.leader_id == args.leader_id
                && read.prev_log_index == args.prev_log_index && read.prev_log_term
                == args.prev_log_term && read.entries == args.entries@ && read.leader_commit
                == args.leader_commit,
        },
{
}

/// A sequence of envelopes is read one by one.
pub proof fn law_all_messages_are_read<C>(envelopes: Seq<Envelope<C>>)
    ensures
        messages(envelopes).len() == envelopes.len(),
        forall|i: int|
            #![trigger messages(envelopes)[i]]
            0 <= i < envelopes.len() ==> messages(envelopes)[i] == envelopes[i]@,
{
}

} // verus!
