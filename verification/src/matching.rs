//! Log matching: entries of two logs with the same index and term are the
//! same entry, and so are all entries before them.
//!
//! Entries of a term are created by the leader of that term alone, which
//! only ever appends to its log; every other log in the cluster, in a node
//! or in a message under way, is a copy of some leader's log or was merged
//! from two logs that already matched.

use crate::cluster::{AppendMsg, Cluster, Step};
use crate::election::{lemma_step_keeps_election_inv, lemma_timeout, lemma_vote_reply};
use crate::log::{agrees, first_conflict, lemma_first_conflict, merged, term_at, LogView};
use crate::model::{is_prefix, lemma_rules_keep_wf, lemma_rules_settle, NodeView};
use vstd::prelude::*;

verus! {

/// Both logs have a slot `i`, with entries of the same term.
pub open spec fn same_term_at(a: LogView, b: LogView, i: int) -> bool {
    0 <= i < a.len() && i < b.len() && a[i].term == b[i].term
}

/// The logs hold the same entries in slots 0 to `i`.
pub open spec fn agree_upto(a: LogView, b: LogView, i: int) -> bool {
    forall|k: int| 0 <= k <= i ==> a[k] == b[k]
}

/// Wherever the two logs hold entries of the same term in the same slot,
/// they hold the same entries up to that slot.
pub open spec fn logs_match(a: LogView, b: LogView) -> bool {
    forall|i: int| #[trigger] same_term_at(a, b, i) ==> agree_upto(a, b, i)
}

/// Every entry of term `term` in `log` is in `leader_log`, in the same slot.
pub open spec fn covers(leader_log: LogView, term: u64, log: LogView) -> bool {
    forall|i: int|
        0 <= i < log.len() && (#[trigger] log[i]).term == term ==> i < leader_log.len()
            && leader_log[i] == log[i]
}

/// A call to replicate entries says of the sender's log what is true of it:
/// the entries are the log's entries after `prev_log_index`, and
/// `prev_log_term` is the term of the entry there.
pub open spec fn message_sound(m: AppendMsg) -> bool {
    &&& NodeView::valid_log(m.log)
    &&& m.request.prev_log_index <= m.log.len()
    &&& m.request.entries == m.log.subrange(m.request.prev_log_index as int, m.log.len() as int)
    &&& m.request.prev_log_term == term_at(m.log, m.request.prev_log_index as int)
}

impl Cluster {
    /// `log` is the log of a node, or was when a message under way was
    /// sent, or is on record as the log of a leader.
    pub open spec fn holds_log(self, log: LogView) -> bool {
        ||| exists|id: u64| #[trigger] self.members.contains(id) && self.nodes[id].log == log
        ||| exists|m: AppendMsg| #[trigger] self.append_requests.contains(m) && m.log == log
        ||| exists|term: u64| #[trigger]
            self.leader_logs.contains_key(term) && self.leader_logs[term] == log
    }

    /// Every term of an entry in `log` was won by some node.
    pub open spec fn terms_won(self, log: LogView) -> bool {
        forall|i: int| 0 <= i < log.len() ==> self.leaders.contains_key((#[trigger] log[i]).term)
    }

    /// The log on record for a node that leads is the log that it has.
    pub open spec fn leader_logs_current(self) -> bool {
        forall|id: u64|
            #[trigger] self.members.contains(id) && self.nodes[id].role is Leader ==> {
                &&& self.leader_logs.contains_key(self.nodes[id].current_term)
                &&& self.leader_logs[self.nodes[id].current_term] == self.nodes[id].log
            }
    }

    /// What holds of the logs in every state that a cluster can reach: the
    /// messages under way are sound; any two logs match; the terms with a
    /// leader's log on record are the terms that were won, and every entry
    /// of such a term, in whatever log, is in that leader's log; the record
    /// is up to date for the nodes that lead; and every entry is of a term
    /// that was won.
    pub open spec fn log_inv(self) -> bool {
        &&& forall|m: AppendMsg| #[trigger] self.append_requests.contains(m) ==> message_sound(m)
        &&& forall|a: LogView, b: LogView|
            #[trigger] self.holds_log(a) && #[trigger] self.holds_log(b) ==> logs_match(a, b)
        &&& forall|term: u64| #[trigger]
            self.leader_logs.contains_key(term) <==> self.leaders.contains_key(term)
        &&& forall|term: u64, log: LogView|
            #[trigger] self.leader_logs.contains_key(term) && #[trigger] self.holds_log(log)
                ==> covers(self.leader_logs[term], term, log)
        &&& self.leader_logs_current()
        &&& forall|log: LogView| #[trigger] self.holds_log(log) ==> self.terms_won(log)
    }

    /// What holds in every state that a cluster can reach.
    pub open spec fn inv(self) -> bool {
        &&& self.election_inv()
        &&& self.log_inv()
    }

    /// Entries of two nodes with the same index and term sit in the same
    /// slot, and the two logs are the same up to and including that slot.
    pub open spec fn log_matching(self) -> bool {
        forall|a: u64, b: u64, i: int, j: int|
            #![trigger self.nodes[a].log[i], self.nodes[b].log[j]]
            self.members.contains(a) && self.members.contains(b) && 0 <= i
                < self.nodes[a].log.len() && 0 <= j < self.nodes[b].log.len()
                && self.nodes[a].log[i].index == self.nodes[b].log[j].index
                && self.nodes[a].log[i].term == self.nodes[b].log[j].term ==> i == j
                && self.nodes[a].log.take(i + 1) == self.nodes[b].log.take(i + 1)
    }
}

/// A follower that takes in the entries of a sound message, whose log
/// matches its own, ends with its own log or with the sender's.
pub proof fn lemma_merged_is_one_of(log: LogView, m: AppendMsg)
    requires
        NodeView::valid_log(log),
        message_sound(m),
        logs_match(log, m.log),
        m.request.prev_log_index == 0 || (m.request.prev_log_index <= log.len() && term_at(
            log,
            m.request.prev_log_index as int,
        ) == m.request.prev_log_term),
    ensures
        merged(log, m.request.prev_log_index as int, m.request.entries) == log || merged(
            log,
            m.request.prev_log_index as int,
            m.request.entries,
        ) == m.log,
        first_conflict(log, m.request.prev_log_index as int, m.request.entries, 0)
            == m.request.entries.len() ==> merged(
            log,
            m.request.prev_log_index as int,
            m.request.entries,
        ) == log,
        is_prefix(m.log, merged(log, m.request.prev_log_index as int, m.request.entries)),
{
    let prev = m.request.prev_log_index as int;
    let entries = m.request.entries;
    let k = first_conflict(log, prev, entries, 0);
    lemma_first_conflict(log, prev, entries, 0);
    if k == entries.len() {
        let end = m.log.len() as int;
        if k > 0 {
            assert(agrees(log, prev, entries, k - 1));
            assert(entries[k - 1] == m.log[end - 1]);
        }
        if end > 0 {
            assert(same_term_at(log, m.log, end - 1));
            assert(agree_upto(log, m.log, end - 1));
        }
    }
    if k < entries.len() {
        let cut = prev + k;
        if k > 0 {
            assert(agrees(log, prev, entries, k - 1));
            assert(entries[k - 1] == m.log[cut - 1]);
        }
        if cut > 0 {
            assert(same_term_at(log, m.log, cut - 1));
            assert(agree_upto(log, m.log, cut - 1));
        }
        let result = merged(log, prev, entries);
        assert(result.len() == m.log.len());
        assert forall|i: int| 0 <= i < result.len() implies result[i] == m.log[i] by {
            if i < cut {
                assert(result[i] == log[i]);
            } else {
                assert(result[i] == entries[i - prev]);
            }
        }
        assert(result =~= m.log);
    }
}

/// A cluster at its start satisfies the invariant.
pub proof fn lemma_init_inv(c: Cluster)
    requires
        c.init(),
    ensures
        c.inv(),
{
    crate::election::lemma_init_election_inv(c);
    assert forall|log: LogView| #[trigger] c.holds_log(log) implies log.len() == 0 by {
        if exists|id: u64| #[trigger] c.members.contains(id) && c.nodes[id].log == log {
            let id = choose|id: u64| #[trigger] c.members.contains(id) && c.nodes[id].log == log;
            assert(c.nodes[id].log.len() == 0);
        }
    }
    assert forall|id: u64| #[trigger] c.members.contains(id) implies !(c.nodes[id].role is Leader) by {
        assert(c.nodes[id] == NodeView::initial(id, c.nodes[id].peers));
    }
}

/// What the step does to the logs that the cluster holds: none is new but,
/// perhaps, the log of the node that moved.
pub proof fn lemma_held_before(c: Cluster, step: Step, log: LogView)
    requires
        c.inv(),
        c.enabled(step),
        c.after(step).holds_log(log),
    ensures
        c.holds_log(log) || log == c.moved(step).log,
{
    let next = c.after(step);
    let id = step.actor();
    if exists|x: u64| #[trigger] next.members.contains(x) && next.nodes[x].log == log {
        let x = choose|x: u64| #[trigger] next.members.contains(x) && next.nodes[x].log == log;
        if x != id {
            assert(c.members.contains(x) && c.nodes[x].log == log);
        }
    } else if exists|m: AppendMsg| #[trigger] next.append_requests.contains(m) && m.log == log {
        let m = choose|m: AppendMsg| #[trigger] next.append_requests.contains(m) && m.log == log;
        if !c.append_requests.contains(m) {
            assert(c.members.contains(id) && c.nodes[id].log == log);
        }
    } else {
        let t = choose|t: u64| #[trigger]
            next.leader_logs.contains_key(t) && next.leader_logs[t] == log;
        if c.leader_logs.contains_key(t) && c.leader_logs[t] == log {
        } else {
            assert(log == c.moved(step).log);
        }
    }
}

/// What a step does to the node that it is about.
pub proof fn lemma_step_moves(c: Cluster, step: Step)
    requires
        c.election_inv(),
        c.enabled(step),
    ensures
        c.moved(step).wf(),
        crate::model::moves(c.nodes[step.actor()], c.moved(step)),
        c.moved(step).role is Leader ==> (c.nodes[step.actor()].role is Leader
            && c.nodes[step.actor()].current_term == c.moved(step).current_term)
            || !c.leaders.contains_key(c.moved(step).current_term),
        c.moved_to(c.after(step), step.actor(), c.moved(step)),
{
    let before = c.nodes[step.actor()];
    lemma_rules_keep_wf(before);
    lemma_rules_settle(before);
    match step {
        Step::Timeout { node } => {
            lemma_timeout(c, node);
        },
        Step::DeliverVoteReply { msg } => {
            lemma_vote_reply(c, msg);
        },
        _ => {},
    }
}

/// A step that leaves the node with a log that the cluster held, and, where
/// the node leads after it, either led with the same log before or leads a
/// term that nobody had won, keeps the invariant on logs.
proof fn lemma_logs_kept(c: Cluster, step: Step)
    requires
        c.inv(),
        c.enabled(step),
        c.after(step).election_inv(),
        c.holds_log(c.moved(step).log),
        c.moved(step).role is Leader && c.nodes[step.actor()].role is Leader ==> c.moved(step).log
            == c.nodes[step.actor()].log,
    ensures
        c.after(step).log_inv(),
{
    let next = c.after(step);
    let id = step.actor();
    let before = c.nodes[id];
    let after = c.moved(step);
    lemma_step_moves(c, step);
    crate::election::lemma_one_leader_per_term(next);
    assert forall|log: LogView| #[trigger] next.holds_log(log) implies c.holds_log(log) by {
        lemma_held_before(c, step, log);
    }
    assert forall|m: AppendMsg| #[trigger] next.append_requests.contains(m) implies message_sound(
        m,
    ) by {
        if !c.append_requests.contains(m) {
            lemma_sent_is_sound(c, step);
        }
    }
    assert forall|term: u64, log: LogView|
        #[trigger] next.leader_logs.contains_key(term) && #[trigger] next.holds_log(
            log,
        ) implies covers(next.leader_logs[term], term, log) by {
        assert(c.holds_log(log));
        if after.role is Leader && term == after.current_term {
            if before.role is Leader && before.current_term == term {
                assert(c.members.contains(id));
            } else {
                assert(c.terms_won(log));
            }
        }
    }
    assert forall|x: u64|
        #[trigger] next.members.contains(x) && next.nodes[x].role is Leader implies {
        &&& next.leader_logs.contains_key(next.nodes[x].current_term)
        &&& next.leader_logs[next.nodes[x].current_term] == next.nodes[x].log
    } by {
        if x != id {
            assert(c.members.contains(x));
            assert(next.members.contains(id));
        }
    }
    assert forall|log: LogView| #[trigger] next.holds_log(log) implies next.terms_won(log) by {
        assert(c.terms_won(log));
    }
}

/// The call that a step sends says of the sender's log what is true of it.
pub proof fn lemma_sent_is_sound(c: Cluster, step: Step)
    requires
        c.inv(),
        c.enabled(step),
    ensures
        forall|m: AppendMsg| #[trigger]
            c.after(step).append_requests.contains(m) && !c.append_requests.contains(m)
                ==> message_sound(m) && m.log == c.nodes[step.actor()].log && step is SendAppend
                && m.request == c.nodes[step.actor()].append_request(step->peer)->0,
{
    if let Step::SendAppend { node, peer } = step {
        let sender = c.nodes[node];
        let sent = AppendMsg {
            to: peer,
            request: sender.append_request(peer)->0,
            log: sender.log,
        };
        assert(sender.wf());
        assert(message_sound(sent)) by {
            let p = sender.peers.index_of(peer);
            assert(0 <= p < sender.peers.len() && sender.peers[p] == peer);
        }
    }
}

/// A leader's append keeps the invariant on logs.
proof fn lemma_submit(c: Cluster, node: u64, command: crate::command::CommandView)
    requires
        c.inv(),
        c.members.contains(node),
        c.after(Step::Submit { node, command }).election_inv(),
        c.nodes[node].takes_commands(),
    ensures
        c.after(Step::Submit { node, command }).log_inv(),
{
    let step = Step::Submit { node, command };
    let next = c.after(step);
    let before = c.nodes[node];
    let after = before.submitted(command);
    let term = before.current_term;
    let old = before.log;
    let new = after.log;
    lemma_step_moves(c, step);
    crate::election::lemma_one_leader_per_term(next);
    assert(c.holds_log(old));
    assert(c.leader_logs[term] == old);
    assert forall|log: LogView| #[trigger] next.holds_log(log) implies c.holds_log(log) || log
        == new by {
        lemma_held_before(c, step, log);
    }
    // The new log matches every log that was held.
    assert forall|log: LogView| c.holds_log(log) implies logs_match(new, log) && logs_match(
        log,
        new,
    ) by {
        assert(logs_match(old, log));
        assert(logs_match(log, old));
        assert(covers(old, term, log));
        assert forall|i: int| #[trigger] same_term_at(new, log, i) implies agree_upto(
            new,
            log,
            i,
        ) by {
            assert(same_term_at(old, log, i));
            assert(agree_upto(old, log, i));
        }
        assert forall|i: int| #[trigger] same_term_at(log, new, i) implies agree_upto(
            log,
            new,
            i,
        ) by {
            assert(same_term_at(log, old, i));
            assert(agree_upto(log, old, i));
        }
    }
    assert forall|a: LogView, b: LogView|
        #[trigger] next.holds_log(a) && #[trigger] next.holds_log(b) implies logs_match(a, b) by {
        if a == new && b == new {
        } else if a == new {
        } else if b == new {
        } else {
        }
    }
    assert forall|t: u64, log: LogView|
        #[trigger] next.leader_logs.contains_key(t) && #[trigger] next.holds_log(
            log,
        ) implies covers(next.leader_logs[t], t, log) by {
        if t == term {
            if log != new {
                assert(covers(old, term, log));
            }
        } else {
            assert(covers(c.leader_logs[t], t, old));
            if log != new {
                assert(covers(c.leader_logs[t], t, log));
            } else {
                assert forall|i: int|
                    0 <= i < new.len() && (#[trigger] new[i]).term == t implies i
                    < c.leader_logs[t].len() && c.leader_logs[t][i] == new[i] by {
                    if i < old.len() {
                        assert(old[i].term == t);
                    }
                }
            }
        }
    }
    assert forall|x: u64|
        #[trigger] next.members.contains(x) && next.nodes[x].role is Leader implies {
        &&& next.leader_logs.contains_key(next.nodes[x].current_term)
        &&& next.leader_logs[next.nodes[x].current_term] == next.nodes[x].log
    } by {
        if x != node {
            assert(c.members.contains(x));
            assert(next.members.contains(node));
        }
    }
    assert forall|log: LogView| #[trigger] next.holds_log(log) implies next.terms_won(log) by {
        if log != new {
            assert(c.terms_won(log));
        } else {
            assert(c.terms_won(old));
            assert forall|i: int| 0 <= i < new.len() implies next.leaders.contains_key(
                (#[trigger] new[i]).term,
            ) by {
                if i < old.len() {
                    assert(old[i].term == new[i].term);
                }
            }
        }
    }
}

/// Every step keeps the invariant.
pub proof fn lemma_step_keeps_inv(c: Cluster, step: Step)
    requires
        c.inv(),
        c.enabled(step),
    ensures
        c.after(step).inv(),
{
    let next = c.after(step);
    let before = c.nodes[step.actor()];
    lemma_step_keeps_election_inv(c, step);
    lemma_rules_settle(before);
    assert(c.holds_log(before.log));
    match step {
        Step::Submit { node, command } => {
            if before.takes_commands() {
                lemma_submit(c, node, command);
            } else {
                lemma_logs_kept(c, step);
            }
        },
        Step::DeliverAppend { msg } => {
            assert(c.holds_log(msg.log));
            assert(message_sound(msg));
            if before.accepts(msg.request) {
                lemma_merged_is_one_of(before.log, msg);
            }
            lemma_logs_kept(c, step);
        },
        _ => {
            lemma_logs_kept(c, step);
        },
    }
}

/// Logs that match pairwise and are indexed by their slots satisfy log
/// matching as stated over indices and terms.
pub proof fn lemma_logs_match(c: Cluster)
    requires
        c.inv(),
    ensures
        c.log_matching(),
{
    assert forall|a: u64, b: u64, i: int, j: int|
        #![trigger c.nodes[a].log[i], c.nodes[b].log[j]]
        c.members.contains(a) && c.members.contains(b) && 0 <= i < c.nodes[a].log.len() && 0 <= j
            < c.nodes[b].log.len() && c.nodes[a].log[i].index == c.nodes[b].log[j].index
            && c.nodes[a].log[i].term == c.nodes[b].log[j].term implies i == j
        && c.nodes[a].log.take(i + 1) == c.nodes[b].log.take(i + 1) by {
        let la = c.nodes[a].log;
        let lb = c.nodes[b].log;
        assert(c.nodes[a].wf() && c.nodes[b].wf());
        assert(c.holds_log(la) && c.holds_log(lb));
        assert(logs_match(la, lb));
        assert(same_term_at(la, lb, i));
        assert(agree_upto(la, lb, i));
        assert(la.take(i + 1) =~= lb.take(i + 1));
    }
}

} // verus!
