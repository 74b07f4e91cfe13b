//! Persistent Raft state and the storage abstraction.
//!
//! The Raft paper (Ongaro & Ousterhout, §5.1) requires three pieces of state
//! to be durable across crashes and restarts: `currentTerm`, `votedFor`, and
//! the `log[]`. This module defines a [`Storage`] trait that captures exactly
//! that contract, independent of *how* it is persisted, plus [`MemStorage`],
//! the only implementation shipped in this crate.
//!
//! **Honest scope**: [`MemStorage`] does **not** write to disk. Nothing here
//! is `fsync`'d, and nothing survives a real process restart. The trait
//! boundary is shaped so a disk-backed implementation could be substituted
//! without touching [`crate::node::RaftNode`].

use vstd::prelude::*;

use crate::rpc::{LogIndex, NodeId, Term};

verus! {

/// A command wrapper stored in the replicated log.
///
/// Every leader appends a [`LogCommand::NoOp`] entry as the very first thing
/// it does upon election (paper §8, "a leader ... commits a blank no-op
/// entry into the log at the start of its term"). This is not decorative: it
/// is what lets a new leader safely commit entries that were replicated
/// under *previous* terms, without which a leader that receives no new
/// client requests could never advance `commit_index` past entries from
/// earlier terms (a liveness gap, not just a style choice).
#[derive(Debug, PartialEq, Eq)]
pub enum LogCommand<C> {
    NoOp,
    Command(C),
}

#[derive(Debug, PartialEq, Eq)]
pub struct LogEntry<C> {
    pub term: Term,
    pub index: LogIndex,
    pub command: LogCommand<C>,
}

/// `Clone` on `C` hands back the value it was given. Entries are copied on
/// their way from a leader to its followers and from the log to the state
/// machine, so replicas can only agree on commands of such a type.
pub open spec fn clone_is_exact<C: Clone>() -> bool {
    forall|a: C, b: C| #[trigger] cloned::<C>(a, b) ==> a == b
}

/// `b` is a copy of the log command `a`.
pub open spec fn command_cloned<C: Clone>(a: LogCommand<C>, b: LogCommand<C>) -> bool {
    match (a, b) {
        (LogCommand::NoOp, LogCommand::NoOp) => true,
        (LogCommand::Command(x), LogCommand::Command(y)) => cloned::<C>(x, y),
        _ => false,
    }
}

/// `b` is a copy of the log entry `a`.
pub open spec fn entry_cloned<C: Clone>(a: LogEntry<C>, b: LogEntry<C>) -> bool {
    &&& a.term == b.term
    &&& a.index == b.index
    &&& command_cloned(a.command, b.command)
}

/// `b` is a copy of the entries `a`, one for one.
pub open spec fn entries_cloned<C: Clone>(a: Seq<LogEntry<C>>, b: Seq<LogEntry<C>>) -> bool {
    &&& a.len() == b.len()
    &&& forall|i: int| 0 <= i < a.len() ==> entry_cloned(a[i], #[trigger] b[i])
}

/// Where `Clone` is exact, copied entries are the entries themselves.
pub proof fn lemma_entries_cloned_exactly<C: Clone>(a: Seq<LogEntry<C>>, b: Seq<LogEntry<C>>)
    requires
        clone_is_exact::<C>(),
        entries_cloned(a, b),
    ensures
        a == b,
{
    assert forall|i: int| 0 <= i < a.len() implies a[i] == b[i] by {
        assert(entry_cloned(a[i], b[i]));
    }
    assert(a =~= b);
}

impl<C: Clone> Clone for LogCommand<C> {
    fn clone(&self) -> (copy: Self)
        ensures
            command_cloned(*self, copy),
    {
        match self {
            LogCommand::NoOp => LogCommand::NoOp,
            LogCommand::Command(command) => LogCommand::Command(command.clone()),
        }
    }
}

impl<C: Clone> Clone for LogEntry<C> {
    fn clone(&self) -> (copy: Self)
        ensures
            entry_cloned(*self, copy),
    {
        LogEntry { term: self.term, index: self.index, command: self.command.clone() }
    }
}

/// The term of the entry at a 1-based index; index `0` stands before the log
/// and has term `0`; past the end there is none.
pub open spec fn term_at<C>(log: Seq<LogEntry<C>>, index: int) -> Option<Term> {
    if index == 0 {
        Some(0)
    } else if 1 <= index <= log.len() {
        Some(log[index - 1].term)
    } else {
        None
    }
}

/// The term of the last entry, `0` for the empty log.
pub open spec fn last_term<C>(log: Seq<LogEntry<C>>) -> Term {
    if log.len() == 0 {
        0
    } else {
        log.last().term
    }
}

/// The entries with index `from` and above. No entry has index `0`, so asking
/// from there gives nothing.
pub open spec fn suffix_from<C>(log: Seq<LogEntry<C>>, from: int) -> Seq<LogEntry<C>> {
    if 1 <= from <= log.len() {
        log.skip(from - 1)
    } else {
        Seq::empty()
    }
}

/// The entries with an index below `from`.
pub open spec fn prefix_before<C>(log: Seq<LogEntry<C>>, from: int) -> Seq<LogEntry<C>> {
    if from <= 0 {
        Seq::empty()
    } else if from <= log.len() {
        log.take(from - 1)
    } else {
        log
    }
}

/// How a log is read by index: the entry with index `i` stands at place
/// `i - 1`; index `0` stands before the log with term `0`; past the end there
/// is nothing. A log and an index part it into what lies below and the rest.
pub proof fn law_log_by_index<C>(log: Seq<LogEntry<C>>, index: int)
    ensures
        index == 0 ==> term_at(log, index) == Some(0u64),
        1 <= index <= log.len() ==> term_at(log, index) == Some(log[index - 1].term),
        index < 0 || index > log.len() ==> term_at(log, index) is None,
        last_term(log) == (if log.len() > 0 {
            log[log.len() - 1].term
        } else {
            0
        }),
        1 <= index ==> prefix_before(log, index) + suffix_from(log, index) == log,
        1 <= index <= log.len() + 1 ==> prefix_before(log, index).len() == index - 1,
        index > log.len() ==> suffix_from(log, index).len() == 0,
        index <= 0 ==> prefix_before(log, index).len() == 0 && suffix_from(log, index).len() == 0,
{
    if 1 <= index {
        assert(prefix_before(log, index) + suffix_from(log, index) =~= log);
    }
}

/// A copy of entries has as many, each with the term and the index of the one
/// it copies, and a no-op where that is one.
pub proof fn law_copies<C: Clone>(a: Seq<LogEntry<C>>, b: Seq<LogEntry<C>>, i: int)
    requires
        entries_cloned(a, b),
        0 <= i < a.len(),
    ensures
        b.len() == a.len(),
        b[i].term == a[i].term,
        b[i].index == a[i].index,
        b[i].command is NoOp <==> a[i].command is NoOp,
        a[i].command matches LogCommand::Command(x) ==> cloned::<C>(
            x,
            b[i].command->Command_0,
        ),
{
    assert(entry_cloned(a[i], b[i]));
}

/// What a [`Storage`] holds.
#[verifier::ext_equal]
pub struct StorageState<C> {
    pub term: Term,
    pub voted_for: Option<NodeId>,
    pub log: Seq<LogEntry<C>>,
}

/// The durable-state contract every Raft node depends on.
///
/// Indices are 1-based; index `0` is the sentinel "before the log starts"
/// index used for `prev_log_index` on the very first AppendEntries.
pub trait Storage<C: Clone>: std::fmt::Debug {
    /// What is stored: the term, the vote and the log, in which the entry
    /// with index `i` stands at position `i - 1`.
    spec fn view(&self) -> StorageState<C>;

    fn current_term(&self) -> (term: Term)
        ensures
            term == self@.term,
    ;

    fn voted_for(&self) -> (vote: Option<NodeId>)
        ensures
            vote == self@.voted_for,
    ;

    /// Persist term + vote together (in a disk-backed implementation this
    /// would be a single fsync'd write — losing atomicity here is exactly
    /// the kind of durability bug that makes Raft implementations unsafe).
    fn set_term_and_vote(&mut self, term: Term, voted_for: Option<NodeId>)
        ensures
            final(self)@ == (StorageState { term, voted_for, log: old(self)@.log }),
    ;

    fn last_index(&self) -> (index: LogIndex)
        ensures
            index == self@.log.len(),
    ;

    fn entry(&self, index: LogIndex) -> (found: Option<&LogEntry<C>>)
        ensures
            found is Some <==> 1 <= index <= self@.log.len(),
            found matches Some(entry) ==> *entry == self@.log[index - 1],
    ;

    fn term_at(&self, index: LogIndex) -> (term: Option<Term>)
        ensures
            term == term_at(self@.log, index as int),
    {
        if index == 0 {
            return Some(0);
        }
        match self.entry(index) {
            Some(entry) => Some(entry.term),
            None => None,
        }
    }

    fn last_term(&self) -> (term: Term)
        ensures
            term == last_term(self@.log),
    {
        let index: LogIndex = self.last_index();
        if index == 0 {
            0
        } else {
            match self.entry(index) {
                Some(entry) => entry.term,
                None => 0,
            }
        }
    }

    /// Append entries to the end of the log. Callers are responsible for
    /// having already resolved any conflicts (see [`Storage::truncate_from`]).
    fn append(&mut self, entries: Vec<LogEntry<C>>)
        ensures
            final(self)@ == (StorageState { log: old(self)@.log + entries@, ..old(self)@ }),
    ;

    /// Remove every entry with `index >= from`. Used when a follower
    /// discovers a conflicting entry while applying AppendEntries (paper
    /// §5.3: "If an existing entry conflicts with a new one ... delete the
    /// existing entry and all that follow it").
    fn truncate_from(&mut self, from: LogIndex)
        ensures
            final(self)@ == (StorageState {
                log: prefix_before(old(self)@.log, from as int),
                ..old(self)@
            }),
    ;

    /// Entries from `from` (inclusive) to the end of the log.
    fn entries_from(&self, from: LogIndex) -> (entries: Vec<LogEntry<C>>)
        ensures
            entries_cloned(suffix_from(self@.log, from as int), entries@),
    ;
}

/// In-memory [`Storage`] implementation. See module docs for what this does
/// *not* provide (durability across a real restart).
#[derive(Debug)]
pub struct MemStorage<C> {
    current_term: Term,
    voted_for: Option<NodeId>,
    log: Vec<LogEntry<C>>,  // log[i] is the entry at index i+1
}

impl<C> MemStorage<C> {
    pub closed spec fn contents(&self) -> StorageState<C> {
        StorageState { term: self.current_term, voted_for: self.voted_for, log: self.log@ }
    }
}

impl<C> Default for MemStorage<C> {
    fn default() -> (storage: Self)
        ensures
            storage.contents() == (StorageState {
                term: 0,
                voted_for: None,
                log: Seq::<LogEntry<C>>::empty(),
            }),
    {
        MemStorage { current_term: 0, voted_for: None, log: Vec::new() }
    }
}

impl<C: Clone + std::fmt::Debug> Storage<C> for MemStorage<C> {
    open spec fn view(&self) -> StorageState<C> {
        self.contents()
    }

    fn current_term(&self) -> Term {
        self.current_term
    }

    fn voted_for(&self) -> Option<NodeId> {
        self.voted_for
    }

    fn set_term_and_vote(&mut self, term: Term, voted_for: Option<NodeId>) {
        self.current_term = term;
        self.voted_for = voted_for;
    }

    fn last_index(&self) -> LogIndex {
        self.log.len() as LogIndex
    }

    fn entry(&self, index: LogIndex) -> Option<&LogEntry<C>> {
        if index == 0 || index > self.log.len() as LogIndex {
            return None;
        }
        Some(&self.log[(index - 1) as usize])
    }

    fn append(&mut self, entries: Vec<LogEntry<C>>) {
        let mut entries = entries;
        self.log.append(&mut entries);
    }

    fn truncate_from(&mut self, from: LogIndex) {
        if from == 0 {
            self.log.clear();
            return;
        }
        if from <= self.log.len() as LogIndex {
            self.log.truncate((from - 1) as usize);
        }
    }

    fn entries_from(&self, from: LogIndex) -> (entries: Vec<LogEntry<C>>) {
        let mut entries: Vec<LogEntry<C>> = Vec::new();
        if from == 0 || from > self.log.len() as LogIndex {
            return entries;
        }
        let start: usize = (from - 1) as usize;
        let mut i: usize = start;
        while i < self.log.len()
            invariant
                start <= i <= self.log.len(),
                entries@.len() == i - start,
                forall|k: int|
                    0 <= k < entries@.len() ==> entry_cloned(
                        self.log@[start + k],
                        #[trigger] entries@[k],
                    ),
            decreases self.log.len() - i,
        {
            entries.push(self.log[i].clone());
            i += 1;
        }
        entries
    }
}

} // verus!
