//! Leader completeness: an index that a quorum counts toward committing in a
//! term, with an entry of that term, is in the log of every leader of a
//! later term.
//!
//! The statement is proved in a form that a single step keeps: of every
//! index with an entry of its leader's term, either the logs in question
//! hold it, or it can no longer be committed in that term.

use crate::cluster::{AppendMsg, AppendReplyMsg, Cluster, Step, Vote};
use crate::commit::{carries, lemma_new_vote, terms_below, terms_rise};
use crate::log::{agrees, first_conflict, last_term, lemma_first_conflict, LogView};
use crate::matching::{
    agree_upto, covers, lemma_merged_is_one_of, lemma_sent_is_sound, lemma_step_moves, logs_match,
    message_sound, same_term_at,
};
use crate::model::{is_prefix, lemma_leader_append_only, lemma_rules_settle, NodeView};
use vstd::prelude::*;

verus! {

impl Cluster {
    /// Who counts toward committing an index holds the entry there, unless
    /// the index can no longer be committed.
    pub open spec fn ackers_hold(self) -> bool {
        forall|term: u64, n: int, q: u64|
            #![trigger self.is_pair(term, n), self.ackers(term, n).contains(q)]
            self.is_pair(term, n) && self.ackers(term, n).contains(q) ==> carries(
                self.nodes[q].log,
                term,
                n,
            ) || self.dead(term, n)
    }

    /// The log of every leader on record holds the entries that leaders of
    /// earlier terms can still commit.
    pub open spec fn leaders_complete(self) -> bool {
        forall|later: u64, term: u64, n: int|
            #![trigger self.leader_logs.contains_key(later), self.is_pair(term, n)]
            self.leader_logs.contains_key(later) && self.is_pair(term, n) && term < later
                ==> carries(self.leader_logs[later], term, n) || self.dead(term, n)
    }

    /// So does the log behind every call to replicate under way.
    pub open spec fn messages_complete(self) -> bool {
        forall|m: AppendMsg, term: u64, n: int|
            #![trigger self.append_requests.contains(m), self.is_pair(term, n)]
            self.append_requests.contains(m) && self.is_pair(term, n) && term < m.request.term
                ==> carries(m.log, term, n) || self.dead(term, n)
    }

    /// So does the log of every candidate, as far as the entries are
    /// concerned that one of its voters counts toward committing.
    pub open spec fn votes_complete(self) -> bool {
        forall|v: Vote, term: u64, n: int|
            #![trigger self.votes.contains(v), self.is_pair(term, n)]
            self.votes.contains(v) && self.is_pair(term, n) && term < v.term && self.ackers(
                term,
                n,
            ).contains(v.voter) && self.nodes[v.candidate].current_term == v.term
                && self.nodes[v.candidate].role is Candidate ==> carries(
                self.nodes[v.candidate].log,
                term,
                n,
            ) || self.dead(term, n)
    }

    /// What a leader knows a peer to hold, the peer has acknowledged.
    pub open spec fn matches_acked(self, id: u64) -> bool {
        let node = self.nodes[id];
        node.role is Leader ==> forall|p: int|
            0 <= p < node.peers.len() && (#[trigger] node.role->match_index[p]) >= 1
                ==> self.has_acked(node.current_term, node.peers[p], node.role->match_index[p] as int)
    }

    /// A successful answer under way stands for an acknowledgement on record.
    pub open spec fn reply_acked(self, r: AppendReplyMsg) -> bool {
        r.reply.success ==> self.has_acked(
            r.request.term,
            r.from,
            r.request.prev_log_index + r.request.entries.len(),
        )
    }

    /// What holds, in every state that a cluster can reach, of the entries
    /// that can still be committed.
    pub open spec fn choice_inv(self) -> bool {
        &&& self.ackers_hold()
        &&& self.leaders_complete()
        &&& self.messages_complete()
        &&& self.votes_complete()
        &&& forall|id: u64| #[trigger] self.members.contains(id) ==> self.matches_acked(id)
        &&& forall|r: AppendReplyMsg| #[trigger] self.append_replies.contains(r) ==> self.reply_acked(r)
    }

    /// Everything that the proof of completeness takes to hold before a step.
    pub open spec fn full_inv(self) -> bool {
        &&& self.inv()
        &&& self.records_inv()
        &&& self.choice_inv()
    }
}

/// An index with an entry of its leader's term stays one; a new one is the
/// index of the entry that the leader of the term has just appended.
pub proof fn lemma_pairs(c: Cluster, step: Step, term: u64, n: int)
    requires
        c.inv(),
        c.records_inv(),
        c.enabled(step),
        c.after(step).inv(),
    ensures
        c.is_pair(term, n) ==> c.after(step).is_pair(term, n),
        c.after(step).is_pair(term, n) && !c.is_pair(term, n) ==> {
            &&& step is Submit
            &&& c.nodes[step.actor()].takes_commands()
            &&& c.nodes[step.actor()].current_term == term
            &&& c.leaders[term] == step.actor()
            &&& n == c.nodes[step.actor()].log.len() + 1
        },
{
    let next = c.after(step);
    let id = step.actor();
    let before = c.nodes[id];
    let after = c.moved(step);
    lemma_step_moves(c, step);
    lemma_leader_append_only(before);
    lemma_rules_settle(before);
    assert(c.holds_log(before.log));
    if after.role is Leader && after.current_term == term {
        if before.role is Leader && before.current_term == term {
            assert(c.members.contains(id));
            assert(c.leader_logs[term] == before.log);
        } else {
            // A term that was just won has no entries yet.
            assert(after.log == before.log);
            assert(c.terms_won(before.log));
            if next.is_pair(term, n) {
                assert(c.leaders.contains_key(before.log[n - 1].term));
            }
        }
    }
}

/// Who counts toward committing an index keeps counting; who is new to it
/// is the node of the step, in the term in question after it, as the new
/// leader of that term or by acknowledging a call of that term.
pub proof fn lemma_ackers(c: Cluster, step: Step, term: u64, n: int, q: u64)
    requires
        c.inv(),
        c.records_inv(),
        c.enabled(step),
        c.after(step).inv(),
    ensures
        c.ackers(term, n).contains(q) ==> c.after(step).ackers(term, n).contains(q),
        c.after(step).ackers(term, n).contains(q) && !c.ackers(term, n).contains(q) ==> {
            &&& q == step.actor()
            &&& c.moved(step).current_term == term
            &&& (c.moved(step).role is Leader && !c.leaders.contains_key(term)) || {
                &&& step is DeliverAppend
                &&& c.nodes[q].accepts(step->DeliverAppend_msg.request)
                &&& step->DeliverAppend_msg.request.term == term
                &&& n <= Cluster::acked_upto(step->DeliverAppend_msg)
            }
        },
{
    let next = c.after(step);
    let id = step.actor();
    let before = c.nodes[id];
    let after = c.moved(step);
    lemma_step_moves(c, step);
    if c.ackers(term, n).contains(q) {
        if c.leaders.contains_key(term) && c.leaders[term] == q {
            if after.role is Leader && after.current_term == term {
                assert(c.won(term));
                crate::election::lemma_one_leader_per_term(next);
                assert(next.leaders[term] == id);
                assert(next.won(term));
                if id != q {
                    // The term was won by `q`; `id` cannot win or lead it.
                    assert(c.members.contains(id));
                    assert(before.role is Leader && before.current_term == term);
                }
            }
        }
    }
}

/// An index that can no longer be committed stays so.
pub proof fn lemma_dead_stays(c: Cluster, step: Step, term: u64, n: int)
    requires
        c.inv(),
        c.records_inv(),
        c.enabled(step),
        c.after(step).inv(),
        c.dead(term, n),
    ensures
        c.after(step).dead(term, n),
{
    let next = c.after(step);
    let id = step.actor();
    let x = choose|x: u64| #[trigger] c.blocks(x, term, n);
    lemma_step_moves(c, step);
    assert(c.elected_by(x));
    assert(next.electors[x] == c.electors[x]);
    assert forall|q: u64| next.ackers(term, n).contains(q) implies !next.electors[x].contains(
        q,
    ) by {
        lemma_ackers(c, step, term, n, q);
        if c.electors[x].contains(q) && !c.ackers(term, n).contains(q) {
            let v = Vote { term: x, voter: q, candidate: c.leaders[x] };
            assert(c.votes.contains(v));
            assert(c.vote_binds(v));
        }
    }
    assert(next.blocks(x, term, n));
}

/// An index that a quorum counts toward committing can still be committed.
pub proof fn lemma_chosen_alive(c: Cluster, term: u64, n: int)
    requires
        c.inv(),
        c.records_inv(),
        c.chosen(term, n),
    ensures
        !c.dead(term, n),
{
    if c.dead(term, n) {
        let x = choose|x: u64| #[trigger] c.blocks(x, term, n);
        assert(c.elected_by(x));
        crate::election::lemma_quorums_meet(c.members, c.ackers(term, n), c.electors[x]);
    }
}

/// A log that passes for at least as up to date as a log which holds an
/// entry that can still be committed holds that entry too, if all its own
/// entries are of terms below the one its owner stands in.
pub proof fn lemma_up_to_date_carries(
    c: Cluster,
    voter_log: LogView,
    candidate_log: LogView,
    standing: u64,
    term: u64,
    n: int,
)
    requires
        c.full_inv(),
        c.holds_log(voter_log),
        c.holds_log(candidate_log),
        c.is_pair(term, n),
        !c.dead(term, n),
        carries(voter_log, term, n),
        term < standing,
        terms_below(candidate_log, standing),
        last_term(candidate_log) > last_term(voter_log) || (last_term(candidate_log) == last_term(
            voter_log,
        ) && candidate_log.len() >= voter_log.len()),
    ensures
        carries(candidate_log, term, n),
{
    let lq = voter_log.len() as int;
    let lc = candidate_log.len() as int;
    assert(terms_rise(voter_log));
    assert(voter_log[n - 1].term <= voter_log[lq - 1].term);
    let x = last_term(candidate_log);
    assert(lc >= 1);
    assert(candidate_log[lc - 1].term == x);
    assert(c.terms_won(candidate_log));
    assert(c.leaders.contains_key(x));
    assert(c.leader_logs.contains_key(x));
    let leader_log = c.leader_logs[x];
    assert(c.holds_log(leader_log));
    assert(covers(leader_log, x, candidate_log));
    assert(logs_match(candidate_log, leader_log));
    assert(same_term_at(candidate_log, leader_log, lc - 1));
    assert(agree_upto(candidate_log, leader_log, lc - 1));
    if x == last_term(voter_log) {
        assert(covers(leader_log, x, voter_log));
        assert(logs_match(voter_log, leader_log));
        assert(same_term_at(voter_log, leader_log, lq - 1));
        assert(agree_upto(voter_log, leader_log, lq - 1));
        assert(candidate_log[n - 1] == leader_log[n - 1]);
    } else {
        assert(term < x);
        assert(carries(leader_log, term, n));
        assert(terms_rise(leader_log));
        if n - 1 >= lc - 1 {
            assert(leader_log[lc - 1].term <= leader_log[n - 1].term);
        }
        assert(candidate_log[n - 1] == leader_log[n - 1]);
    }
}

/// Every step keeps the holders of entries that can still be committed
/// holding them.
proof fn lemma_ackers_hold(c: Cluster, step: Step)
    requires
        c.full_inv(),
        c.enabled(step),
        c.after(step).inv(),
        c.after(step).records_inv(),
    ensures
        c.after(step).ackers_hold(),
{
    let next = c.after(step);
    let id = step.actor();
    let before = c.nodes[id];
    let after = c.moved(step);
    lemma_step_moves(c, step);
    lemma_rules_settle(before);
    lemma_leader_append_only(before);
    assert forall|term: u64, n: int, q: u64|
        #![trigger next.is_pair(term, n), next.ackers(term, n).contains(q)]
        next.is_pair(term, n) && next.ackers(term, n).contains(q) implies carries(
        next.nodes[q].log,
        term,
        n,
    ) || next.dead(term, n) by {
        lemma_pairs(c, step, term, n);
        lemma_ackers(c, step, term, n, q);
        if c.dead(term, n) {
            lemma_dead_stays(c, step, term, n);
        } else if !c.is_pair(term, n) {
            // The entry was appended in this step, by the leader of the term.
            if q != id {
                assert(c.ack_sound(term, q));
            }
        } else if !c.ackers(term, n).contains(q) {
            if step is DeliverAppend {
                let msg = step->DeliverAppend_msg;
                assert(c.sent_by_leader(msg));
                assert(message_sound(msg));
                assert(c.holds_log(msg.log));
                assert(c.holds_log(before.log));
                lemma_merged_is_one_of(before.log, msg);
            }
        } else {
            assert(carries(c.nodes[q].log, term, n));
            if q == id {
                lemma_holder_keeps(c, step, term, n);
            }
        }
    }
}

/// The node of a step that held an entry which can still be committed,
/// and counted toward committing it, holds it after the step.
proof fn lemma_holder_keeps(c: Cluster, step: Step, term: u64, n: int)
    requires
        c.full_inv(),
        c.enabled(step),
        c.is_pair(term, n),
        !c.dead(term, n),
        c.ackers(term, n).contains(step.actor()),
        carries(c.nodes[step.actor()].log, term, n),
    ensures
        carries(c.moved(step).log, term, n),
{
    let id = step.actor();
    let before = c.nodes[id];
    let after = c.moved(step);
    lemma_rules_settle(before);
    lemma_leader_append_only(before);
    assert(before.current_term >= term) by {
        if c.leaders.contains_key(term) && c.leaders[term] == id {
            assert(c.won(term));
        } else {
            assert(c.ack_sound(term, id));
        }
    }
    match step {
        Step::DeliverAppend { msg } => {
            if before.accepts(msg.request) {
                let prev = msg.request.prev_log_index as int;
                let entries = msg.request.entries;
                assert(c.sent_by_leader(msg));
                assert(message_sound(msg));
                assert(c.holds_log(msg.log));
                assert(c.holds_log(before.log));
                lemma_merged_is_one_of(before.log, msg);
                if msg.request.term > term {
                    assert(carries(msg.log, term, n));
                } else if msg.log.len() >= n {
                    let leader_log = c.leader_logs[term];
                    assert(msg.log[n - 1] == leader_log[n - 1]);
                } else {
                    // The call offers nothing that the node does not hold.
                    let leader_log = c.leader_logs[term];
                    assert(c.holds_log(leader_log));
                    assert(logs_match(before.log, leader_log));
                    assert(same_term_at(before.log, leader_log, n - 1));
                    assert(agree_upto(before.log, leader_log, n - 1));
                    lemma_first_conflict(before.log, prev, entries, 0);
                    let k = first_conflict(before.log, prev, entries, 0);
                    if k < entries.len() {
                        assert(entries[k] == msg.log[prev + k]);
                        assert(msg.log[prev + k] == leader_log[prev + k]);
                        assert(before.log[prev + k] == leader_log[prev + k]);
                        assert(agrees(before.log, prev, entries, k));
                    }
                }
            }
        },
        _ => {},
    }
}

/// The index of an entry that a leader appends in a step cannot be committed
/// in its term once a later term was won.
proof fn lemma_late_entry_is_dead(c: Cluster, step: Step, later: u64, term: u64, n: int)
    requires
        c.full_inv(),
        c.enabled(step),
        c.after(step).inv(),
        c.after(step).records_inv(),
        c.after(step).is_pair(term, n),
        !c.is_pair(term, n),
        c.leader_logs.contains_key(later),
        term < later,
    ensures
        c.after(step).dead(term, n),
{
    let next = c.after(step);
    let id = step.actor();
    let before = c.nodes[id];
    lemma_pairs(c, step, term, n);
    lemma_step_moves(c, step);
    assert(c.leaders.contains_key(later));
    assert(c.electors.contains_key(later));
    assert(c.elected_by(later));
    assert(c.members.contains(id) && before.role is Leader);
    assert(c.leader_logs[term] == before.log);
    assert forall|q: u64| next.ackers(term, n).contains(q) implies !next.electors[later].contains(
        q,
    ) by {
        if q != id {
            assert(c.ack_sound(term, q));
        } else if c.electors[later].contains(id) {
            let v = Vote { term: later, voter: id, candidate: c.leaders[later] };
            assert(c.votes.contains(v));
            assert(c.vote_binds(v));
        }
    }
    assert(next.blocks(later, term, n));
}

/// The log of a leader on record keeps what it held.
pub proof fn lemma_leader_log_grows(c: Cluster, step: Step, term: u64)
    requires
        c.full_inv(),
        c.enabled(step),
        c.leader_logs.contains_key(term),
    ensures
        c.after(step).leader_logs.contains_key(term),
        is_prefix(c.leader_logs[term], c.after(step).leader_logs[term]),
{
    let id = step.actor();
    let before = c.nodes[id];
    let after = c.moved(step);
    lemma_step_moves(c, step);
    lemma_leader_append_only(before);
    if after.role is Leader && after.current_term == term {
        assert(c.leaders.contains_key(term));
        assert(c.members.contains(id) && before.role is Leader);
    }
}

/// Every step keeps the logs of the leaders complete.
proof fn lemma_leaders_complete(c: Cluster, step: Step)
    requires
        c.full_inv(),
        c.enabled(step),
        c.after(step).inv(),
        c.after(step).records_inv(),
    ensures
        c.after(step).leaders_complete(),
{
    let next = c.after(step);
    let id = step.actor();
    let before = c.nodes[id];
    let after = c.moved(step);
    lemma_step_moves(c, step);
    lemma_rules_settle(before);
    assert forall|later: u64, term: u64, n: int|
        #![trigger next.leader_logs.contains_key(later), next.is_pair(term, n)]
        next.leader_logs.contains_key(later) && next.is_pair(term, n) && term < later implies carries(
        next.leader_logs[later],
        term,
        n,
    ) || next.dead(term, n) by {
        lemma_pairs(c, step, term, n);
        if c.dead(term, n) {
            lemma_dead_stays(c, step, term, n);
        } else if !c.is_pair(term, n) {
            assert(c.leader_logs.contains_key(later));
            lemma_late_entry_is_dead(c, step, later, term, n);
        } else if c.leader_logs.contains_key(later) {
            lemma_leader_log_grows(c, step, later);
            assert(carries(c.leader_logs[later], term, n));
        } else if !next.blocks(later, term, n) {
            // A new leader: one of its electors counts toward the entry.
            assert(next.electors.contains_key(later));
            assert(next.electors[later] =~= next.voters(later, id));
            let q = choose|q: u64|
                next.ackers(term, n).contains(q) && next.electors[later].contains(q);
            lemma_ackers(c, step, term, n, q);
            let v = Vote { term: later, voter: q, candidate: id };
            assert(next.votes.contains(v));
            if q == id {
                assert(carries(before.log, term, n));
            } else {
                if !c.votes.contains(v) {
                    lemma_new_vote(c, step, v);
                }
                assert(c.candidate_reached(v));
                assert(before.role is Candidate && before.current_term == later);
                assert(carries(before.log, term, n));
            }
        }
    }
}

/// Every step keeps the logs behind the calls under way complete.
proof fn lemma_messages_complete(c: Cluster, step: Step)
    requires
        c.full_inv(),
        c.enabled(step),
        c.after(step).inv(),
        c.after(step).records_inv(),
    ensures
        c.after(step).messages_complete(),
{
    let next = c.after(step);
    let id = step.actor();
    let before = c.nodes[id];
    lemma_step_moves(c, step);
    lemma_sent_is_sound(c, step);
    assert forall|m: AppendMsg, term: u64, n: int|
        #![trigger next.append_requests.contains(m), next.is_pair(term, n)]
        next.append_requests.contains(m) && next.is_pair(term, n) && term
            < m.request.term implies carries(m.log, term, n) || next.dead(term, n) by {
        lemma_pairs(c, step, term, n);
        if c.dead(term, n) {
            lemma_dead_stays(c, step, term, n);
        } else if !c.append_requests.contains(m) {
            let p = before.peers.index_of(step->peer);
            assert(c.members.contains(id) && before.role is Leader);
            assert(c.leader_logs.contains_key(before.current_term));
        } else if !c.is_pair(term, n) {
            assert(c.sent_by_leader(m));
            lemma_late_entry_is_dead(c, step, m.request.term, term, n);
        }
    }
}

/// Every step keeps the logs of the candidates complete as far as their
/// voters count toward entries.
proof fn lemma_votes_complete(c: Cluster, step: Step)
    requires
        c.full_inv(),
        c.enabled(step),
        c.after(step).inv(),
        c.after(step).records_inv(),
    ensures
        c.after(step).votes_complete(),
{
    let next = c.after(step);
    let id = step.actor();
    let before = c.nodes[id];
    let after = c.moved(step);
    lemma_step_moves(c, step);
    lemma_rules_settle(before);
    assert forall|v: Vote, term: u64, n: int|
        #![trigger next.votes.contains(v), next.is_pair(term, n)]
        next.votes.contains(v) && next.is_pair(term, n) && term < v.term && next.ackers(
            term,
            n,
        ).contains(v.voter) && next.nodes[v.candidate].current_term == v.term
            && next.nodes[v.candidate].role is Candidate implies carries(
        next.nodes[v.candidate].log,
        term,
        n,
    ) || next.dead(term, n) by {
        let candidate = v.candidate;
        lemma_pairs(c, step, term, n);
        lemma_ackers(c, step, term, n, v.voter);
        assert(next.vote_binds(v));
        assert(next.candidate_reached(v));
        if c.dead(term, n) {
            lemma_dead_stays(c, step, term, n);
        } else if !c.is_pair(term, n) {
            // Only the leader of the term counts toward the new entry, and
            // it has not voted in a later term.
            if v.voter != id {
                assert(c.ack_sound(term, v.voter));
            }
        } else {
            assert(c.ackers(term, n).contains(v.voter));
            if candidate == id {
                assert(carries(c.nodes[v.voter].log, term, n));
                if c.votes.contains(v) {
                    assert(c.candidate_reached(v));
                    crate::commit::lemma_candidate_keeps_log(c, step);
                } else {
                    lemma_new_vote(c, step, v);
                }
                if v.voter == id {
                    assert(after.log == before.log);
                }
            } else if c.votes.contains(v) {
                assert(c.members.contains(candidate));
            } else {
                // The vote is cast in this step, for the call of a candidate
                // whose log must be at least as up to date as the voter's.
                lemma_new_vote(c, step, v);
                let request = step->request;
                assert(c.request_current(request));
                assert(c.members.contains(candidate));
                assert(c.holds_log(before.log));
                assert(c.holds_log(c.nodes[candidate].log));
                assert(carries(before.log, term, n));
                lemma_up_to_date_carries(
                    c,
                    before.log,
                    c.nodes[candidate].log,
                    v.term,
                    term,
                    n,
                );
            }
        }
    }
}

/// Every step keeps what the leaders know and what the answers under way
/// say backed by the record of acknowledgements.
proof fn lemma_acks_backed(c: Cluster, step: Step)
    requires
        c.full_inv(),
        c.enabled(step),
        c.after(step).inv(),
    ensures
        forall|id: u64| #[trigger] c.after(step).members.contains(id) ==> c.after(step).matches_acked(id),
        forall|r: AppendReplyMsg| #[trigger]
            c.after(step).append_replies.contains(r) ==> c.after(step).reply_acked(r),
{
    let next = c.after(step);
    let id = step.actor();
    let before = c.nodes[id];
    let after = c.moved(step);
    lemma_step_moves(c, step);
    lemma_rules_settle(before);
    assert forall|r: AppendReplyMsg| #[trigger] next.append_replies.contains(r) implies next.reply_acked(
        r,
    ) by {
        if c.append_replies.contains(r) {
            assert(c.reply_acked(r));
        }
    }
    assert forall|x: u64| #[trigger] next.members.contains(x) implies next.matches_acked(x) by {
        assert(c.matches_acked(x));
        let node = next.nodes[x];
        if node.role is Leader {
            assert forall|p: int|
                0 <= p < node.peers.len() && (#[trigger] node.role->match_index[p])
                    >= 1 implies next.has_acked(
                node.current_term,
                node.peers[p],
                node.role->match_index[p] as int,
            ) by {
                if x != id {
                    assert(c.nodes[x].role->match_index[p] >= 1);
                } else {
                    lemma_match_index(c, step, p);
                }
            }
        }
    }
}

/// What the leader of a step knows the peer at position `p` to hold after
/// the step, it knew before, or the peer says so in the answer delivered.
proof fn lemma_match_index(c: Cluster, step: Step, p: int)
    requires
        c.full_inv(),
        c.enabled(step),
        c.moved(step).role is Leader,
        0 <= p < c.moved(step).peers.len(),
        c.moved(step).role->match_index[p] >= 1,
    ensures
        c.has_acked(
            c.moved(step).current_term,
            c.moved(step).peers[p],
            c.moved(step).role->match_index[p] as int,
        ),
{
    let id = step.actor();
    let before = c.nodes[id];
    let after = c.moved(step);
    lemma_rules_settle(before);
    assert(c.matches_acked(id));
    assert(before.wf());
    match step {
        Step::DeliverAppendReply { msg } => {
            assert(c.reply_acked(msg));
            if before.role is Leader {
                assert(before.role->match_index[p] >= 1 ==> c.has_acked(
                    before.current_term,
                    before.peers[p],
                    before.role->match_index[p] as int,
                ));
                if msg.reply.term <= before.current_term && before.awaits_reply(
                    msg.from,
                    msg.request,
                ) {
                    let at = before.peers.index_of(msg.from);
                    assert(0 <= at < before.peers.len() && before.peers[at] == msg.from);
                }
            }
        },
        Step::Timeout { node } => {},
        Step::DeliverVoteReply { msg } => {
            if before.role is Leader {
                assert(before.role->match_index[p] >= 1);
            }
        },
        _ => {
            assert(before.role is Leader);
            assert(after.role->match_index == before.role->match_index);
            assert(before.role->match_index[p] >= 1);
        },
    }
}

/// Every step keeps what holds of the entries that can still be committed.
pub proof fn lemma_step_keeps_choice(c: Cluster, step: Step)
    requires
        c.full_inv(),
        c.enabled(step),
    ensures
        c.after(step).full_inv(),
{
    crate::matching::lemma_step_keeps_inv(c, step);
    crate::commit::lemma_step_keeps_records(c, step);
    lemma_ackers_hold(c, step);
    lemma_leaders_complete(c, step);
    lemma_messages_complete(c, step);
    lemma_votes_complete(c, step);
    lemma_acks_backed(c, step);
}

/// A cluster at its start satisfies all of it.
pub proof fn lemma_init_full(c: Cluster)
    requires
        c.init(),
    ensures
        c.full_inv(),
{
    crate::matching::lemma_init_inv(c);
    crate::commit::lemma_init_records(c);
    assert forall|id: u64| #[trigger] c.members.contains(id) implies c.matches_acked(id) by {
        assert(c.nodes[id] == NodeView::initial(id, c.nodes[id].peers));
    }
}

} // verus!
