//! The replicated state machine that sits on top of the Raft log.
//!
//! Raft itself only guarantees that every node applies the *same sequence*
//! of committed commands in the *same order*. What those commands mean is
//! entirely up to the state machine. This module provides a minimal
//! key-value store ([`KvStore`]) as the demonstration state machine: it
//! exists to give something concrete to compare across nodes ("does every
//! node end up with byte-identical state?"), not as a product.

use vstd::prelude::*;

use crate::text_map::TextMap;

verus! {

/// A deterministic state machine driven by committed log entries.
///
/// Its view is the state that counts: what a machine answers, and the state
/// it goes to, depend on that and on the command alone.
pub trait StateMachine: Default + std::fmt::Debug + View {
    type Command: Clone + std::fmt::Debug;

    type Output: Clone + std::fmt::Debug + PartialEq;

    /// The state of a machine to which nothing was applied.
    spec fn initial() -> Self::V;

    /// The state that a command leads to.
    spec fn after(state: Self::V, command: Self::Command) -> Self::V;

    /// `output` is an answer to the command.
    spec fn answers(state: Self::V, command: Self::Command, output: Self::Output) -> bool;

    /// A machine made by `default` is in the initial state.
    proof fn default_is_initial(machine: Self)
        requires
            call_ensures(Self::default, (), machine),
        ensures
            machine@ == Self::initial(),
    ;

    fn apply(&mut self, command: &Self::Command) -> (output: Self::Output)
        ensures
            final(self)@ == Self::after(old(self)@, *command),
            Self::answers(old(self)@, *command, output),
    ;
}

/// A command to a [`KvStore`].
#[derive(Debug, PartialEq, Eq)]
pub enum KvCommand {
    Put { key: String, value: String },
    Delete { key: String },
}

impl Clone for KvCommand {
    fn clone(&self) -> (copy: Self)
        ensures
            copy == *self,
    {
        match self {
            KvCommand::Put { key, value } => KvCommand::Put {
                key: key.clone(),
                value: value.clone(),
            },
            KvCommand::Delete { key } => KvCommand::Delete { key: key.clone() },
        }
    }
}

/// The command that gives `key` the value `value`.
pub fn set(key: &str, value: &str) -> (command: KvCommand)
    ensures
        command matches KvCommand::Put { key: k, value: v } && k@ == key@ && v@ == value@,
{
    KvCommand::Put { key: key.to_string(), value: value.to_string() }
}

/// A copy of a command to a [`KvStore`] is that command, so such commands can
/// be replicated.
pub proof fn law_kv_commands_copy_exactly()
    ensures
        crate::storage::clone_is_exact::<KvCommand>(),
{
}

#[derive(Debug, Clone, PartialEq, Eq)]
pub enum KvOutput {
    Put,
    Deleted(Option<String>),
}

/// A tiny replicated key-value store. Its map keeps its entries in the order
/// of their keys, so that `Debug`/`==` comparisons across nodes are stable.
#[derive(Debug, PartialEq, Eq)]
pub struct KvStore {
    pub map: TextMap,
}

impl View for KvStore {
    type V = Map<Seq<char>, Seq<char>>;

    open spec fn view(&self) -> Map<Seq<char>, Seq<char>> {
        self.map@
    }
}

impl Default for KvStore {
    fn default() -> (store: Self)
        ensures
            store@ == Map::<Seq<char>, Seq<char>>::empty(),
    {
        KvStore { map: TextMap::new() }
    }
}

impl Clone for KvStore {
    fn clone(&self) -> (copy: Self)
        ensures
            copy@ == self@,
    {
        KvStore { map: self.map.clone() }
    }
}

impl StateMachine for KvStore {
    type Command = KvCommand;

    type Output = KvOutput;

    open spec fn initial() -> Map<Seq<char>, Seq<char>> {
        Map::empty()
    }

    open spec fn after(state: Map<Seq<char>, Seq<char>>, command: KvCommand) -> Map<
        Seq<char>,
        Seq<char>,
    > {
        match command {
            KvCommand::Put { key, value } => state.insert(key@, value@),
            KvCommand::Delete { key } => state.remove(key@),
        }
    }

    open spec fn answers(
        state: Map<Seq<char>, Seq<char>>,
        command: KvCommand,
        output: KvOutput,
    ) -> bool {
        match (command, output) {
            (KvCommand::Put { .. }, KvOutput::Put) => true,
            (KvCommand::Delete { key }, KvOutput::Deleted(None)) => !state.contains_key(key@),
            (KvCommand::Delete { key }, KvOutput::Deleted(Some(value))) => state.contains_key(key@)
                && state[key@] == value@,
            _ => false,
        }
    }

    proof fn default_is_initial(machine: Self) {
    }

    fn apply(&mut self, command: &KvCommand) -> KvOutput {
        match command {
            KvCommand::Put { key, value } => {
                let _ = self.map.insert(key.clone(), value.clone());
                KvOutput::Put
            },
            KvCommand::Delete { key } => KvOutput::Deleted(self.map.remove(key.as_str())),
        }
    }
}

/// What was put under a key is found there, what was deleted is not, and the
/// other keys keep what they had.
pub proof fn law_last_write_is_read(
    state: Map<Seq<char>, Seq<char>>,
    key: String,
    value: String,
    other: Seq<char>,
)
    ensures
        ({
            let after = KvStore::after(state, KvCommand::Put { key, value });
            &&& after.contains_key(key@) && after[key@] == value@
            &&& other != key@ ==> after.contains_key(other) == state.contains_key(other)
                && after[other] == state[other]
        }),
        ({
            let after = KvStore::after(state, KvCommand::Delete { key });
            &&& !after.contains_key(key@)
            &&& other != key@ && state.contains_key(other) ==> after.contains_key(other)
                && after[other] == state[other]
            &&& !state.contains_key(other) ==> !after.contains_key(other)
        }),
{
}

/// A store starts empty. Putting is answered by `Put`; deleting by what was
/// under the key, if anything was.
pub proof fn law_answers(
    state: Map<Seq<char>, Seq<char>>,
    key: String,
    value: String,
    output: KvOutput,
)
    ensures
        forall|any: Seq<char>| !#[trigger] KvStore::initial().contains_key(any),
        KvStore::answers(state, KvCommand::Put { key, value }, output) <==> output is Put,
        KvStore::answers(state, KvCommand::Delete { key }, output) <==> {
            &&& output matches KvOutput::Deleted(found)
            &&& found is Some <==> state.contains_key(key@)
            &&& found matches Some(text) ==> text@ == state[key@]
        },
{
}

} // verus!
