//! Client commands and the effect each has on the key-value store.

use crate::kv::{Error, Store};
use vstd::prelude::*;

verus! {

/// A mutation of the key-value store, as carried by a log entry.
#[derive(Debug, PartialEq, Eq)]
pub enum Command {
    /// Store `value` under `key`, which must be absent.
    Insert { key: String, value: String },
    /// Overwrite the value under `key`, which must be present.
    Update { key: String, value: String },
    /// Delete `key`, which must be present.
    Remove { key: String },
}

/// A command as a mathematical value: its strings as character sequences.
pub enum CommandView {
    Insert { key: Seq<char>, value: Seq<char> },
    Update { key: Seq<char>, value: Seq<char> },
    Remove { key: Seq<char> },
}

impl View for Command {
    type V = CommandView;

    open spec fn view(&self) -> CommandView {
        match self {
            Command::Insert { key, value } => CommandView::Insert { key: key@, value: value@ },
            Command::Update { key, value } => CommandView::Update { key: key@, value: value@ },
            Command::Remove { key } => CommandView::Remove { key: key@ },
        }
    }
}

impl Clone for Command {
    fn clone(&self) -> (copy: Self)
        ensures
            copy == *self,
    {
        match self {
            Command::Insert { key, value } => Command::Insert {
                key: key.clone(),
                value: value.clone(),
            },
            Command::Update { key, value } => Command::Update {
                key: key.clone(),
                value: value.clone(),
            },
            Command::Remove { key } => Command::Remove { key: key.clone() },
        }
    }
}

impl Command {
    /// The number that stands for the kind of command where a command is
    /// written as plain values: 0 for an insert, 1 for an update, 2 for a
    /// removal.
    pub fn kind(&self) -> (kind: u32)
        ensures
            kind == kind_of(self@),
    {
        match self {
            Command::Insert { .. } => 0,
            Command::Update { .. } => 1,
            Command::Remove { .. } => 2,
        }
    }

    /// The key that the command is about.
    pub fn key(&self) -> (key: &str)
        ensures
            key@ == key_of(self@),
    {
        match self {
            Command::Insert { key, .. } => key.as_str(),
            Command::Update { key, .. } => key.as_str(),
            Command::Remove { key } => key.as_str(),
        }
    }

    /// The value that the command stores; `None` for a removal.
    pub fn value(&self) -> (value: Option<&str>)
        ensures
            match value {
                Some(v) => !(self@ is Remove) && v@ == value_of(self@),
                None => self@ is Remove,
            },
    {
        match self {
            Command::Insert { value, .. } => Some(value.as_str()),
            Command::Update { value, .. } => Some(value.as_str()),
            Command::Remove { .. } => None,
        }
    }

    /// The command of kind `kind` about `key`, with `value` where the kind
    /// stores one; `None` for a number that stands for no kind. A removal
    /// drops `value`.
    pub fn from_parts(kind: u32, key: String, value: String) -> (command: Option<Command>)
        ensures
            match command {
                Some(c) => {
                    &&& kind <= 2
                    &&& kind_of(c@) == kind
                    &&& key_of(c@) == key@
                    &&& !(c@ is Remove) ==> value_of(c@) == value@
                },
                None => kind > 2,
            },
    {
        if kind == 0 {
            Some(Command::Insert { key, value })
        } else if kind == 1 {
            Some(Command::Update { key, value })
        } else if kind == 2 {
            Some(Command::Remove { key })
        } else {
            None
        }
    }
}

/// The number that stands for the kind of `command`.
pub open spec fn kind_of(command: CommandView) -> u32 {
    match command {
        CommandView::Insert { .. } => 0,
        CommandView::Update { .. } => 1,
        CommandView::Remove { .. } => 2,
    }
}

/// The key that `command` is about.
pub open spec fn key_of(command: CommandView) -> Seq<char> {
    match command {
        CommandView::Insert { key, .. } => key,
        CommandView::Update { key, .. } => key,
        CommandView::Remove { key } => key,
    }
}

/// The value that `command` stores; empty for a removal.
pub open spec fn value_of(command: CommandView) -> Seq<char> {
    match command {
        CommandView::Insert { value, .. } => value,
        CommandView::Update { value, .. } => value,
        CommandView::Remove { .. } => Seq::empty(),
    }
}

/// What the store answered when a command was applied.
#[derive(Clone, Copy, Debug, PartialEq, Eq, Structural)]
pub enum ApplyOutcome {
    /// The command took effect.
    Success,
    /// An insert found its key present; the store is unchanged.
    AlreadyExists,
    /// An update or a removal found its key absent; the store is unchanged.
    NotFound,
}

/// The contents of a store.
pub type StoreView = Map<Seq<char>, Seq<char>>;

/// The answer of a store with contents `store` to `command`.
pub open spec fn outcome_of(store: StoreView, command: CommandView) -> ApplyOutcome {
    match command {
        CommandView::Insert { key, value } => if store.contains_key(key) {
            ApplyOutcome::AlreadyExists
        } else {
            ApplyOutcome::Success
        },
        CommandView::Update { key, value } => if store.contains_key(key) {
            ApplyOutcome::Success
        } else {
            ApplyOutcome::NotFound
        },
        CommandView::Remove { key } => if store.contains_key(key) {
            ApplyOutcome::Success
        } else {
            ApplyOutcome::NotFound
        },
    }
}

/// The contents of a store after `command` was applied to contents `store`.
/// A command that is refused leaves the contents as they were.
pub open spec fn store_after(store: StoreView, command: CommandView) -> StoreView {
    match command {
        CommandView::Insert { key, value } => if store.contains_key(key) {
            store
        } else {
            store.insert(key, value)
        },
        CommandView::Update { key, value } => if store.contains_key(key) {
            store.insert(key, value)
        } else {
            store
        },
        CommandView::Remove { key } => store.remove(key),
    }
}

/// The outcome that corresponds to the result of a store operation.
pub fn outcome_from(result: Result<(), Error>) -> (outcome: ApplyOutcome)
    ensures
        outcome == match result {
            Ok(_) => ApplyOutcome::Success,
            Err(Error::Exists) => ApplyOutcome::AlreadyExists,
            Err(Error::DoesNotExist) => ApplyOutcome::NotFound,
        },
{
    match result {
        Ok(_) => ApplyOutcome::Success,
        Err(Error::Exists) => ApplyOutcome::AlreadyExists,
        Err(Error::DoesNotExist) => ApplyOutcome::NotFound,
    }
}

impl Store {
    /// Applies `command` to the store and reports the store's answer.
    pub fn apply(&mut self, command: &Command) -> (outcome: ApplyOutcome)
        ensures
            final(self)@ == store_after(old(self)@, command@),
            outcome == outcome_of(old(self)@, command@),
    {
        let result = match command {
            Command::Insert { key, value } => self.insert(key.clone(), value.clone()),
            Command::Update { key, value } => self.update(key.as_str(), value.clone()),
            Command::Remove { key } => self.remove(key.as_str()),
        };
        proof {
            if let CommandView::Remove { key } = command@ {
                if !old(self)@.contains_key(key) {
                    assert(old(self)@.remove(key) =~= old(self)@);
                }
            }
        }
        outcome_from(result)
    }
}

} // verus!
