//! The replicated log: an index-addressed sequence of terms and commands.

use crate::command::{outcome_of, store_after, ApplyOutcome, Command, CommandView, StoreView};
use vstd::prelude::*;

verus! {

/// One slot of the log. `index` counts from 1.
#[derive(Debug, PartialEq, Eq)]
pub struct LogEntry {
    pub term: u64,
    pub index: u64,
    pub command: Command,
}

/// A log entry as a mathematical value.
pub struct EntryView {
    pub term: u64,
    pub index: u64,
    pub command: CommandView,
}

impl View for LogEntry {
    type V = EntryView;

    open spec fn view(&self) -> EntryView {
        EntryView { term: self.term, index: self.index, command: self.command@ }
    }
}

impl Clone for LogEntry {
    fn clone(&self) -> (copy: Self)
        ensures
            copy == *self,
    {
        LogEntry { term: self.term, index: self.index, command: self.command.clone() }
    }
}

/// A log as a mathematical value.
pub type LogView = Seq<EntryView>;

/// The log that a sequence of entries stands for.
pub open spec fn entries_view(entries: Seq<LogEntry>) -> LogView {
    entries.map_values(|e: LogEntry| e@)
}

/// Every entry carries the index of the slot it sits in, counted from `prev + 1`.
pub open spec fn indexed_from(entries: LogView, prev: int) -> bool {
    forall|k: int| 0 <= k < entries.len() ==> (#[trigger] entries[k]).index == prev + k + 1
}

/// The term of the entry at 1-based `index`; 0 for index 0, before the first entry.
pub open spec fn term_at(log: LogView, index: int) -> u64 {
    if 1 <= index <= log.len() {
        log[index - 1].term
    } else {
        0
    }
}

/// The term of the last entry; 0 for an empty log.
pub open spec fn last_term(log: LogView) -> u64 {
    term_at(log, log.len() as int)
}

/// Entry `k` of `entries`, offered for slot `prev + k + 1`, finds an entry of
/// the same term already there.
pub open spec fn agrees(log: LogView, prev: int, entries: LogView, k: int) -> bool {
    prev + k < log.len() && log[prev + k].term == entries[k].term
}

/// The position in `entries`, not before `from`, of the first entry that
/// `log` does not already hold; `entries.len()` when it holds them all.
pub open spec fn first_conflict(log: LogView, prev: int, entries: LogView, from: int) -> int
    decreases entries.len() - from,
{
    if 0 <= from < entries.len() && agrees(log, prev, entries, from) {
        first_conflict(log, prev, entries, from + 1)
    } else if from < entries.len() {
        from
    } else {
        entries.len() as int
    }
}

/// The log after a follower has taken in `entries`, which follow slot `prev`:
/// unchanged when it holds them all, else cut at the first conflicting slot
/// and continued with the rest of `entries`.
pub open spec fn merged(log: LogView, prev: int, entries: LogView) -> LogView {
    let k = first_conflict(log, prev, entries, 0);
    if k == entries.len() {
        log
    } else {
        log.subrange(0, prev + k) + entries.subrange(k, entries.len() as int)
    }
}

/// The store contents after the first `n` entries of `log` were applied, in
/// order, to an empty store.
pub open spec fn store_at(log: LogView, n: int) -> StoreView
    decreases n,
{
    if n <= 0 {
        Map::empty()
    } else {
        store_after(store_at(log, n - 1), log[n - 1].command)
    }
}

/// The store's answer to the entry at 1-based `index`, applied after all
/// entries before it.
pub open spec fn outcome_at(log: LogView, index: int) -> ApplyOutcome {
    outcome_of(store_at(log, index - 1), log[index - 1].command)
}

/// The answers to the first `n` entries of `log`, in order.
pub open spec fn outcomes_upto(log: LogView, n: int) -> Seq<ApplyOutcome> {
    Seq::new(n as nat, |i: int| outcome_at(log, i + 1))
}

/// `first_conflict` lies between `from` and the number of entries; every
/// entry between `from` and it agrees with the log, and the entry at it, if
/// there is one, does not.
pub proof fn lemma_first_conflict(log: LogView, prev: int, entries: LogView, from: int)
    requires
        0 <= from <= entries.len(),
    ensures
        from <= first_conflict(log, prev, entries, from) <= entries.len(),
        forall|j: int|
            from <= j < first_conflict(log, prev, entries, from) ==> agrees(log, prev, entries, j),
        first_conflict(log, prev, entries, from) < entries.len() ==> !agrees(
            log,
            prev,
            entries,
            first_conflict(log, prev, entries, from),
        ),
    decreases entries.len() - from,
{
    if from < entries.len() && agrees(log, prev, entries, from) {
        lemma_first_conflict(log, prev, entries, from + 1);
    }
}

/// What was applied depends only on the entries that were applied: logs that
/// agree on their first `n` entries give the same store after `n` steps.
pub proof fn lemma_store_at_prefix(a: LogView, b: LogView, n: int)
    requires
        0 <= n <= a.len(),
        n <= b.len(),
        forall|i: int| 0 <= i < n ==> a[i] == b[i],
    ensures
        store_at(a, n) == store_at(b, n),
    decreases n,
{
    if n > 0 {
        lemma_store_at_prefix(a, b, n - 1);
    }
}

/// Logs that agree on their first `n` entries give the same store and the
/// same answers after `n` steps.
pub proof fn lemma_applied_prefix(a: LogView, b: LogView, n: int)
    requires
        0 <= n <= a.len(),
        n <= b.len(),
        forall|i: int| 0 <= i < n ==> a[i] == b[i],
    ensures
        store_at(a, n) == store_at(b, n),
        outcomes_upto(a, n) == outcomes_upto(b, n),
{
    lemma_store_at_prefix(a, b, n);
    assert forall|i: int| 1 <= i <= n implies #[trigger] outcome_at(a, i) == outcome_at(b, i) by {
        lemma_store_at_prefix(a, b, i - 1);
    }
    assert(outcomes_upto(a, n) =~= outcomes_upto(b, n));
}

} // verus!
