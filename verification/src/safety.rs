//! The safety properties of the protocol, stated of every run of a cluster.
//!
//! A run starts with every node new and proceeds by the steps of `cluster`,
//! in any order and with any messages delayed, repeated or never delivered.

use crate::cluster::{is_run, Cluster, Step};
use crate::command::CommandView;
use crate::log::{lemma_applied_prefix, outcomes_upto, store_at, LogView};
use crate::model::{cursors_kept, is_prefix, lemma_cursors_never_fall};
use crate::progress::{lemma_progress_is_possible, lemma_reaches_safe, reaches};
use crate::statemachine::{lemma_init_safe, lemma_sound, lemma_step_keeps_safe};
use vstd::prelude::*;

verus! {

/// The invariant holds in every state of every run.
pub proof fn lemma_run_keeps_inv(run: Seq<Cluster>, i: int)
    requires
        is_run(run),
        0 <= i < run.len(),
    ensures
        run[i].safe_inv(),
    decreases i,
{
    if i == 0 {
        lemma_init_safe(run[0]);
    } else {
        lemma_run_keeps_inv(run, i - 1);
        let before = run[i - 1];
        assert(before.steps_to(run[i]));
        let step = choose|step: Step| before.enabled(step) && run[i] == before.after(step);
        lemma_step_keeps_safe(before, step);
    }
}

/// Along a run the members stay the same, and the record of committed
/// entries only grows at its end.
pub proof fn lemma_committed_grows(run: Seq<Cluster>, i: int, j: int)
    requires
        is_run(run),
        0 <= i <= j < run.len(),
    ensures
        run[i].members == run[j].members,
        is_prefix(run[i].committed, run[j].committed),
    decreases j - i,
{
    if i < j {
        lemma_committed_grows(run, i, j - 1);
        lemma_run_keeps_inv(run, j - 1);
        let before = run[j - 1];
        assert(before.steps_to(run[j]));
        let step = choose|step: Step| before.enabled(step) && run[j] == before.after(step);
        lemma_step_keeps_safe(before, step);
    }
}

/// Election safety: at every instant of every run, at most one node
/// considers itself leader of any one term.
pub proof fn election_safety(run: Seq<Cluster>, i: int)
    requires
        is_run(run),
        0 <= i < run.len(),
    ensures
        run[i].election_safe(),
{
    lemma_run_keeps_inv(run, i);
    crate::election::lemma_one_leader_per_term(run[i]);
}

/// Log matching: at every instant of every run, two entries in the logs of
/// any two nodes that have the same index and term are the same entry, with
/// the same command, and all entries before them are the same too.
pub proof fn log_matching(run: Seq<Cluster>, i: int)
    requires
        is_run(run),
        0 <= i < run.len(),
    ensures
        run[i].log_matching(),
{
    lemma_run_keeps_inv(run, i);
    crate::matching::lemma_logs_match(run[i]);
}

/// Commit monotonicity: no step lowers the commit index or the apply cursor
/// of a node, but for the restart of that node, which begins a new lifetime;
/// and the apply cursor never passes the commit index.
pub proof fn commit_monotonicity(run: Seq<Cluster>, i: int, id: u64)
    requires
        is_run(run),
        0 <= i < run.len() - 1,
        run[i].members.contains(id),
    ensures
        run[i + 1] == run[i].after(Step::Restart { node: id }) || cursors_kept(
            run[i].nodes[id],
            run[i + 1].nodes[id],
        ),
{
    lemma_run_keeps_inv(run, i);
    let before = run[i];
    assert(before.steps_to(run[i + 1]));
    let step = choose|step: Step| before.enabled(step) && run[i + 1] == before.after(step);
    assert(before.nodes[id].wf());
    lemma_cursors_never_fall(before.nodes[id]);
}

/// State machine safety: once a node has applied the entry at an index, no
/// node, then or at any later instant of the run, has applied another entry
/// at that index. `k` counts from 1.
pub proof fn state_machine_safety(run: Seq<Cluster>, i: int, j: int, a: u64, b: u64, k: int)
    requires
        is_run(run),
        0 <= i <= j < run.len(),
        run[i].members.contains(a),
        run[i].members.contains(b),
        1 <= k <= run[i].nodes[a].last_applied,
        k <= run[j].nodes[b].last_applied,
    ensures
        run[i].nodes[a].log[k - 1] == run[j].nodes[b].log[k - 1],
{
    lemma_run_keeps_inv(run, i);
    lemma_run_keeps_inv(run, j);
    lemma_committed_grows(run, i, j);
    let first = run[i];
    let second = run[j];
    assert(first.commits_recorded(a));
    assert(second.commits_recorded(b));
    assert(first.nodes[a].wf());
    assert(second.nodes[b].wf());
    assert(first.nodes[a].log[k - 1] == first.committed[k - 1]);
    assert(second.nodes[b].log[k - 1] == second.committed[k - 1]);
}

/// Nodes that have applied equally many entries hold the same store
/// contents and gave the same answers, at whatever instants of the run.
pub proof fn stores_converge(run: Seq<Cluster>, i: int, j: int, a: u64, b: u64)
    requires
        is_run(run),
        0 <= i <= j < run.len(),
        run[i].members.contains(a),
        run[i].members.contains(b),
        run[i].nodes[a].last_applied == run[j].nodes[b].last_applied,
    ensures
        store_at(run[i].nodes[a].log, run[i].nodes[a].last_applied as int) == store_at(
            run[j].nodes[b].log,
            run[j].nodes[b].last_applied as int,
        ),
        outcomes_upto(run[i].nodes[a].log, run[i].nodes[a].last_applied as int) == outcomes_upto(
            run[j].nodes[b].log,
            run[j].nodes[b].last_applied as int,
        ),
{
    let n = run[i].nodes[a].last_applied as int;
    let first = run[i].nodes[a].log;
    let second = run[j].nodes[b].log;
    lemma_run_keeps_inv(run, i);
    lemma_run_keeps_inv(run, j);
    lemma_committed_grows(run, i, j);
    assert(run[i].nodes[a].wf());
    assert(run[j].nodes[b].wf());
    assert forall|p: int| 0 <= p < n implies first[p] == second[p] by {
        state_machine_safety(run, i, j, a, b, p + 1);
    }
    lemma_applied_prefix(first, second, n);
}

/// Progress is possible: at every instant of every run, any quorum of the
/// nodes whose terms and logs leave room can, by steps of its own and
/// without a restart, come to a state in which one of its nodes leads and has
/// appended, committed and applied an entry with `command`. Nothing is said
/// of time: that the nodes take such steps is up to their timers and the
/// network.
///
/// Returns that state, the leader, and the index of the entry.
pub proof fn progress_is_possible(
    run: Seq<Cluster>,
    i: int,
    quorum: Set<u64>,
    command: CommandView,
) -> (end: (Cluster, u64, int))
    requires
        is_run(run),
        0 <= i < run.len(),
        run[i].has_room(quorum),
    ensures
        reaches(run[i], quorum, end.0),
        end.0.safe_inv(),
        end.0.members == run[i].members,
        quorum.contains(end.1),
        end.0.nodes[end.1].role is Leader,
        1 <= end.2 <= end.0.nodes[end.1].last_applied,
        end.2 <= end.0.nodes[end.1].log.len(),
        end.0.nodes[end.1].log[end.2 - 1].command == command,
        end.0.nodes[end.1].log[end.2 - 1].term == end.0.nodes[end.1].current_term,
{
    lemma_run_keeps_inv(run, i);
    lemma_sound(run[i]);
    let end = lemma_progress_is_possible(run[i], quorum, command);
    lemma_reaches_safe(run[i], quorum, end.0);
    end
}

/// The state machine is deterministic: logs that agree on their first `n`
/// entries give the same store contents and the same answers after `n`
/// entries were applied.
pub proof fn applied_logs_converge(a: LogView, b: LogView, n: int)
    requires
        0 <= n <= a.len(),
        n <= b.len(),
        forall|i: int| 0 <= i < n ==> a[i] == b[i],
    ensures
        store_at(a, n) == store_at(b, n),
        outcomes_upto(a, n) == outcomes_upto(b, n),
{
    lemma_applied_prefix(a, b, n);
}

} // verus!
