//! What stands behind a commit: the bounds on the terms in a log, the
//! soundness of the records of elections and acknowledgements, and the
//! notions in which the safety of committing is stated.

use crate::cluster::{AppendMsg, Cluster, Step, Vote};
use crate::log::LogView;
use crate::matching::{
    lemma_held_before, lemma_merged_is_one_of, lemma_sent_is_sound, lemma_step_moves,
    message_sound,
};
use crate::message::RequestVoteRequest;
use crate::model::{is_prefix, lemma_rules_settle, NodeView};
use vstd::prelude::*;

verus! {

/// `log` has an entry of term `term` at index `n`, counted from 1.
pub open spec fn carries(log: LogView, term: u64, n: int) -> bool {
    1 <= n <= log.len() && log[n - 1].term == term
}

/// The terms of the entries never fall along the log.
pub open spec fn terms_rise(log: LogView) -> bool {
    forall|i: int, j: int| 0 <= i <= j < log.len() ==> log[i].term <= log[j].term
}

/// No entry is of a term above `term`.
pub open spec fn terms_within(log: LogView, term: u64) -> bool {
    forall|i: int| 0 <= i < log.len() ==> (#[trigger] log[i]).term <= term
}

/// Every entry is of a term below `term`.
pub open spec fn terms_below(log: LogView, term: u64) -> bool {
    forall|i: int| 0 <= i < log.len() ==> (#[trigger] log[i]).term < term
}

impl Cluster {
    /// The leader of `term` has, on record, an entry of its own term at
    /// index `n`: one that it can commit by counting.
    pub open spec fn is_pair(self, term: u64, n: int) -> bool {
        self.leader_logs.contains_key(term) && carries(self.leader_logs[term], term, n)
    }

    /// `node` acknowledged in `term` that it holds the leader's entries up to
    /// index `n` at least.
    pub open spec fn has_acked(self, term: u64, node: u64, n: int) -> bool {
        self.acked.contains_key((term, node)) && self.acked[(term, node)] >= n
    }

    /// The members that count toward committing index `n` in `term`: the
    /// leader of the term, and who acknowledged up to `n` in it.
    pub open spec fn ackers(self, term: u64, n: int) -> Set<u64> {
        Set::new(
            |q: u64|
                self.members.contains(q) && ((self.leaders.contains_key(term) && self.leaders[term]
                    == q) || self.has_acked(term, q, n)),
        )
    }

    /// None of the members that elected the leader of term `x`, a later term
    /// than `term`, counts toward committing index `n` in `term`. They never
    /// will: they have left `term` behind.
    pub open spec fn blocks(self, x: u64, term: u64, n: int) -> bool {
        x > term && self.electors.contains_key(x) && self.ackers(term, n).disjoint(
            self.electors[x],
        )
    }

    /// Index `n` can no longer be committed in `term`: the electors of some
    /// later term stand in the way of a quorum.
    pub open spec fn dead(self, term: u64, n: int) -> bool {
        exists|x: u64| #[trigger] self.blocks(x, term, n)
    }

    /// A quorum counts toward committing index `n` in `term`, where the
    /// leader has an entry of that term.
    pub open spec fn chosen(self, term: u64, n: int) -> bool {
        self.is_pair(term, n) && 2 * self.ackers(term, n).len() > self.members.len()
    }

    /// The bounds on terms: no log of a node holds an entry of a term above
    /// the node's, nor one of a candidate's own term; no message holds one
    /// above the term it was sent in; no leader's log on record holds one
    /// above the term led; and along every log the terms never fall.
    pub open spec fn terms_bounded(self) -> bool {
        &&& forall|id: u64| #[trigger]
            self.members.contains(id) ==> {
                &&& terms_within(self.nodes[id].log, self.nodes[id].current_term)
                &&& self.nodes[id].role is Candidate ==> terms_below(
                    self.nodes[id].log,
                    self.nodes[id].current_term,
                )
            }
        &&& forall|m: AppendMsg| #[trigger]
            self.append_requests.contains(m) ==> terms_within(m.log, m.request.term)
        &&& forall|term: u64| #[trigger]
            self.leader_logs.contains_key(term) ==> terms_within(self.leader_logs[term], term)
        &&& forall|log: LogView| #[trigger] self.holds_log(log) ==> terms_rise(log)
    }

    /// A call to replicate under way was sent by the leader of its term and
    /// holds a prefix of that leader's log.
    pub open spec fn sent_by_leader(self, m: AppendMsg) -> bool {
        &&& self.leader_logs.contains_key(m.request.term)
        &&& is_prefix(m.log, self.leader_logs[m.request.term])
    }

    /// A call for votes under way is from a member that has reached the
    /// call's term, and says of the log of who still stands in that term
    /// what is true of it.
    pub open spec fn request_current(self, r: RequestVoteRequest) -> bool {
        let candidate = self.nodes[r.candidate_id];
        &&& self.members.contains(r.candidate_id)
        &&& candidate.current_term >= r.term
        &&& candidate.current_term == r.term && candidate.role is Candidate ==> r
            == candidate.vote_request()
    }

    /// The electors on record for `term` are members, more than half of
    /// them, and each has its vote for the leader of the term on record.
    pub open spec fn elected_by(self, term: u64) -> bool {
        let electors = self.electors[term];
        &&& electors.subset_of(self.members)
        &&& 2 * electors.len() > self.members.len()
        &&& forall|q: u64| #[trigger]
            electors.contains(q) ==> self.votes.contains(
                Vote { term, voter: q, candidate: self.leaders[term] },
            )
    }

    /// An acknowledgement on record is of a member that has reached its
    /// term, and reaches no further than the log of the leader of that term.
    pub open spec fn ack_sound(self, term: u64, node: u64) -> bool {
        &&& self.members.contains(node)
        &&& self.leader_logs.contains_key(term)
        &&& 0 <= self.acked[(term, node)] <= self.leader_logs[term].len()
        &&& self.nodes[node].current_term >= term
    }

    /// The records beside the votes and the logs are sound.
    pub open spec fn records_inv(self) -> bool {
        &&& self.terms_bounded()
        &&& forall|m: AppendMsg| #[trigger]
            self.append_requests.contains(m) ==> self.sent_by_leader(m)
        &&& forall|r: RequestVoteRequest| #[trigger]
            self.vote_requests.contains(r) ==> self.request_current(r)
        &&& forall|term: u64| #[trigger]
            self.electors.contains_key(term) <==> self.leaders.contains_key(term)
        &&& forall|term: u64| #[trigger] self.electors.contains_key(term) ==> self.elected_by(term)
        &&& forall|term: u64, node: u64| #[trigger]
            self.acked.contains_key((term, node)) ==> self.ack_sound(term, node)
        &&& forall|id: u64| #[trigger] self.members.contains(id) ==> self.vote_on_record(id)
        &&& forall|v: Vote| #[trigger] self.votes.contains(v) ==> self.candidate_reached(v)
    }

    /// The vote that node `id` holds in its term is on record.
    pub open spec fn vote_on_record(self, id: u64) -> bool {
        self.nodes[id].voted_for is Some ==> self.votes.contains(
            Vote {
                term: self.nodes[id].current_term,
                voter: id,
                candidate: self.nodes[id].voted_for->0,
            },
        )
    }

    /// The candidate of a vote on record is a member that has reached the
    /// vote's term.
    pub open spec fn candidate_reached(self, v: Vote) -> bool {
        self.members.contains(v.candidate) && self.nodes[v.candidate].current_term >= v.term
    }
}

/// A cluster at its start has sound records.
pub proof fn lemma_init_records(c: Cluster)
    requires
        c.init(),
    ensures
        c.records_inv(),
{
    crate::matching::lemma_init_inv(c);
    assert forall|log: LogView| #[trigger] c.holds_log(log) implies log.len() == 0 by {
        if exists|id: u64| #[trigger] c.members.contains(id) && c.nodes[id].log == log {
            let id = choose|id: u64| #[trigger] c.members.contains(id) && c.nodes[id].log == log;
            assert(c.nodes[id] == NodeView::initial(id, c.nodes[id].peers));
        }
    }
    assert forall|id: u64| #[trigger] c.members.contains(id) implies c.nodes[id].log.len()
        == 0 && !(c.nodes[id].role is Candidate) by {
        assert(c.nodes[id] == NodeView::initial(id, c.nodes[id].peers));
    }
}

/// Every step keeps the bounds on terms.
proof fn lemma_terms_bounded(c: Cluster, step: Step)
    requires
        c.inv(),
        c.records_inv(),
        c.enabled(step),
        c.after(step).inv(),
    ensures
        c.after(step).terms_bounded(),
{
    let next = c.after(step);
    let id = step.actor();
    let before = c.nodes[id];
    let after = c.moved(step);
    lemma_step_moves(c, step);
    lemma_sent_is_sound(c, step);
    assert(c.holds_log(before.log));
    assert(terms_rise(before.log));
    // The log of the node that moved is within its bounds.
    assert(terms_within(after.log, after.current_term) && terms_rise(after.log) && (after.role
        is Candidate ==> terms_below(after.log, after.current_term))) by {
        match step {
            Step::DeliverAppend { msg } => {
                assert(c.holds_log(msg.log));
                assert(message_sound(msg));
                if before.accepts(msg.request) {
                    lemma_merged_is_one_of(before.log, msg);
                }
            },
            Step::Submit { node, command } => {
                if before.takes_commands() {
                    let old = before.log;
                    assert forall|i: int, j: int| 0 <= i <= j < after.log.len() implies after.log[i].term
                        <= after.log[j].term by {
                        if j < old.len() {
                            assert(old[i].term <= old[j].term);
                        } else if i < old.len() {
                            assert(old[i].term <= before.current_term);
                        }
                    }
                }
            },
            _ => {},
        }
    }
    assert forall|x: u64| #[trigger] next.members.contains(x) implies {
        &&& terms_within(next.nodes[x].log, next.nodes[x].current_term)
        &&& next.nodes[x].role is Candidate ==> terms_below(
            next.nodes[x].log,
            next.nodes[x].current_term,
        )
    } by {
        if x != id {
            assert(c.members.contains(x));
        }
    }
    assert forall|m: AppendMsg| #[trigger] next.append_requests.contains(m) implies terms_within(
        m.log,
        m.request.term,
    ) by {
        if !c.append_requests.contains(m) {
            let p = before.peers.index_of(step->peer);
        }
    }
    assert forall|log: LogView| #[trigger] next.holds_log(log) implies terms_rise(log) by {
        lemma_held_before(c, step, log);
    }
}

/// Every step keeps the records sound.
pub proof fn lemma_step_keeps_records(c: Cluster, step: Step)
    requires
        c.inv(),
        c.records_inv(),
        c.enabled(step),
        c.after(step).inv(),
    ensures
        c.after(step).records_inv(),
{
    let next = c.after(step);
    let id = step.actor();
    let before = c.nodes[id];
    let after = c.moved(step);
    lemma_terms_bounded(c, step);
    lemma_step_moves(c, step);
    lemma_sent_is_sound(c, step);
    assert(c.holds_log(before.log));
    assert forall|m: AppendMsg| #[trigger] next.append_requests.contains(m) implies next.sent_by_leader(
        m,
    ) by {
        if c.append_requests.contains(m) {
            assert(c.sent_by_leader(m));
            let term = m.request.term;
            if after.role is Leader && after.current_term == term {
                crate::model::lemma_leader_append_only(before);
                assert(c.leaders.contains_key(term));
                assert(c.members.contains(id) && before.role is Leader);
            }
        } else {
            let p = before.peers.index_of(step->peer);
        }
    }
    assert forall|r: RequestVoteRequest| #[trigger] next.vote_requests.contains(r) implies next.request_current(
        r,
    ) by {
        if c.vote_requests.contains(r) {
            assert(c.request_current(r));
            if r.candidate_id == id && after.current_term == r.term && after.role is Candidate {
                lemma_candidate_keeps_log(c, step);
            }
        }
    }
    assert forall|term: u64| #[trigger] next.electors.contains_key(term) implies next.elected_by(
        term,
    ) by {
        if c.electors.contains_key(term) {
            assert(c.elected_by(term));
        } else {
            assert(next.won(term));
            assert(next.electors[term] =~= next.voters(term, id));
        }
    }
    assert forall|v: Vote| #[trigger] next.votes.contains(v) implies next.candidate_reached(v) by {
        if c.votes.contains(v) {
            assert(c.candidate_reached(v));
        } else {
            lemma_new_vote(c, step, v);
            if step is DeliverVoteRequest {
                assert(c.request_current(step->request));
            }
        }
    }
    assert forall|term: u64, node: u64| #[trigger]
        next.acked.contains_key((term, node)) implies next.ack_sound(term, node) by {
        if c.acked.contains_key((term, node)) && c.acked[(term, node)] == next.acked[(term, node)] {
            assert(c.ack_sound(term, node));
            if after.role is Leader && after.current_term == term {
                crate::model::lemma_leader_append_only(before);
                assert(c.leaders.contains_key(term));
                assert(c.members.contains(id) && before.role is Leader);
            }
        } else {
            let msg = step->DeliverAppend_msg;
            assert(c.sent_by_leader(msg));
            assert(message_sound(msg));
        }
    }
}

/// A vote that a step puts on record is the vote that the node of the step
/// holds after it, cast in this step for itself or for a candidate whose
/// call it received.
pub proof fn lemma_new_vote(c: Cluster, step: Step, v: Vote)
    requires
        c.inv(),
        c.records_inv(),
        c.enabled(step),
        c.after(step).votes.contains(v),
        !c.votes.contains(v),
    ensures
        v.voter == step.actor(),
        v.term == c.moved(step).current_term,
        c.moved(step).voted_for == Some(v.candidate),
        (step is Timeout && v.candidate == v.voter && c.nodes[v.voter].can_campaign()) || (step
            is DeliverVoteRequest && v.candidate == step->request.candidate_id
            && c.nodes[v.voter].grants_vote(step->request) && step->request.term == v.term),
{
    let before = c.nodes[step.actor()];
    assert(c.vote_on_record(step.actor()));
    lemma_rules_settle(before);
}

/// A node that stands for election after a step, in the term it stood in
/// before it, has the log it had.
pub proof fn lemma_candidate_keeps_log(c: Cluster, step: Step)
    requires
        c.election_inv(),
        c.enabled(step),
        c.moved(step).role is Candidate,
        c.moved(step).current_term == c.nodes[step.actor()].current_term,
    ensures
        c.nodes[step.actor()].role is Candidate,
        c.moved(step).log == c.nodes[step.actor()].log,
        c.moved(step).vote_request() == c.nodes[step.actor()].vote_request(),
{
    lemma_rules_settle(c.nodes[step.actor()]);
}

} // verus!
