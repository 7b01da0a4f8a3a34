//! Election safety: in no term does more than one node lead.
//!
//! The proof rests on the record of votes. A node casts at most one vote in
//! a term and keeps it through restarts, a candidate counts only votes that
//! were cast for it in its term, and a leader was elected by the votes of
//! more than half of the members. Two such halves share a voter, who voted
//! once.

use crate::cluster::{Cluster, Step, Vote, VoteReplyMsg};
use crate::model::{lemma_rules_keep_wf, lemma_rules_settle, moves, settles, NodeView, RoleView};
use vstd::prelude::*;
use vstd::set_lib::*;

verus! {

impl Cluster {
    /// The members that voted for `candidate` in `term`.
    pub open spec fn voters(self, term: u64, candidate: u64) -> Set<u64> {
        Set::new(
            |voter: u64|
                self.members.contains(voter) && self.votes.contains(
                    Vote { term, voter, candidate },
                ),
        )
    }

    /// The voter of `vote` is a member that has reached the vote's term and,
    /// while in that term, still holds that vote.
    pub open spec fn vote_binds(self, vote: Vote) -> bool {
        let voter = self.nodes[vote.voter];
        &&& self.members.contains(vote.voter)
        &&& voter.current_term >= vote.term
        &&& voter.current_term == vote.term ==> voter.voted_for == Some(vote.candidate)
    }

    /// Every vote that candidate `id` has counted was cast for it in its term.
    pub open spec fn counted_votes_cast(self, id: u64) -> bool {
        self.nodes[id].role is Candidate ==> forall|i: int|
            0 <= i < self.nodes[id].role->votes.len() ==> self.votes.contains(
                Vote {
                    term: self.nodes[id].current_term,
                    voter: #[trigger] self.nodes[id].role->votes[i],
                    candidate: id,
                },
            )
    }

    /// The record of votes is sound: every vote binds its voter, no voter
    /// voted twice in a term, every granted answer under way stands for a
    /// vote, and so does every vote that a candidate has counted.
    pub open spec fn votes_recorded(self) -> bool {
        &&& forall|v: Vote| #[trigger] self.votes.contains(v) ==> self.vote_binds(v)
        &&& forall|v: Vote, w: Vote|
            #[trigger] self.votes.contains(v) && #[trigger] self.votes.contains(w) && v.term
                == w.term && v.voter == w.voter ==> v.candidate == w.candidate
        &&& forall|m: VoteReplyMsg|
            #[trigger] self.vote_replies.contains(m) && m.reply.vote_granted
                ==> self.votes.contains(
                Vote { term: m.reply.term, voter: m.from, candidate: m.to },
            )
        &&& forall|id: u64| #[trigger] self.members.contains(id) ==> self.counted_votes_cast(id)
    }

    /// The node recorded as leader of `term` is a member that has reached
    /// the term, is no candidate in it, and holds the votes of more than
    /// half of the members for it.
    pub open spec fn won(self, term: u64) -> bool {
        let leader = self.leaders[term];
        &&& self.members.contains(leader)
        &&& self.nodes[leader].current_term >= term
        &&& self.nodes[leader].current_term == term ==> !(self.nodes[leader].role is Candidate)
        &&& 2 * self.voters(term, leader).len() > self.members.len()
    }

    /// The record of elections is sound: every recorded term was won, and
    /// every node that leads is recorded for its term.
    pub open spec fn leaders_recorded(self) -> bool {
        &&& forall|term: u64| #[trigger] self.leaders.contains_key(term) ==> self.won(term)
        &&& forall|id: u64|
            #[trigger] self.members.contains(id) && self.nodes[id].role is Leader ==> {
                &&& self.leaders.contains_key(self.nodes[id].current_term)
                &&& self.leaders[self.nodes[id].current_term] == id
            }
    }

    /// What holds of elections in every state that a cluster can reach.
    pub open spec fn election_inv(self) -> bool {
        &&& self.well_formed()
        &&& self.votes_recorded()
        &&& self.leaders_recorded()
    }

    /// At most one node considers itself leader of any one term.
    pub open spec fn election_safe(self) -> bool {
        forall|a: u64, b: u64|
            #[trigger] self.members.contains(a) && #[trigger] self.members.contains(b)
                && self.nodes[a].role is Leader && self.nodes[b].role is Leader
                && self.nodes[a].current_term == self.nodes[b].current_term ==> a == b
    }

    /// `next` differs from `self` in that node `id` moved to `after`, with
    /// the records kept as `acted` keeps them, and that answers of `id`
    /// which stand for its current vote may have been sent.
    pub open spec fn moved_to(self, next: Cluster, id: u64, after: NodeView) -> bool {
        &&& self.members.contains(id)
        &&& next.members == self.members
        &&& next.nodes == self.nodes.insert(id, after)
        &&& next.votes == self.votes_with(id, after)
        &&& next.leaders == self.acted(id, after).leaders
        &&& forall|m: VoteReplyMsg| #[trigger]
            next.vote_replies.contains(m) ==> self.vote_replies.contains(m) || (m.from == id && (
            m.reply.vote_granted ==> after.voted_for == Some(m.to) && m.reply.term
                == after.current_term))
    }
}

/// Two sets that each hold more than half of a finite set share a member.
pub proof fn lemma_quorums_meet(all: Set<u64>, a: Set<u64>, b: Set<u64>)
    requires
        all.finite(),
        a.subset_of(all),
        b.subset_of(all),
        2 * a.len() > all.len(),
        2 * b.len() > all.len(),
    ensures
        exists|x: u64| a.contains(x) && b.contains(x),
{
    lemma_len_subset(a, all);
    lemma_len_subset(b, all);
    lemma_set_intersect_union_lens(a, b);
    lemma_len_subset(a + b, all);
    lemma_len_subset(a.intersect(b), a);
    assert(a.intersect(b).len() > 0);
    let x = a.intersect(b).choose();
    assert(a.intersect(b).contains(x));
}

/// A node's view of the cluster's size is the number of members.
pub proof fn lemma_cluster_size(c: Cluster, id: u64)
    requires
        c.well_formed(),
        c.members.contains(id),
    ensures
        c.nodes[id].cluster_size() == c.members.len(),
{
    broadcast use vstd::set::group_set_axioms;

    c.nodes[id].peers.unique_seq_to_set();
}

/// The voters for a candidate are at least as many as the votes it counted.
proof fn lemma_counted_votes(c: Cluster, id: u64, term: u64, votes: Seq<u64>)
    requires
        c.members.finite(),
        votes.no_duplicates(),
        forall|i: int|
            0 <= i < votes.len() ==> c.members.contains(#[trigger] votes[i]) && c.votes.contains(
                Vote { term, voter: votes[i], candidate: id },
            ),
    ensures
        c.voters(term, id).len() >= votes.len(),
{
    votes.unique_seq_to_set();
    lemma_len_subset(c.voters(term, id), c.members);
    assert forall|x: u64| votes.to_set().contains(x) implies c.voters(term, id).contains(x) by {
        let i = choose|i: int| 0 <= i < votes.len() && votes[i] == x;
        assert(c.members.contains(votes[i]));
    }
    lemma_len_subset(votes.to_set(), c.voters(term, id));
}

/// More votes on record mean no fewer voters for anyone.
proof fn lemma_voters_grow(c: Cluster, next: Cluster, term: u64, candidate: u64)
    requires
        c.members.finite(),
        next.members == c.members,
        c.votes.subset_of(next.votes),
    ensures
        c.voters(term, candidate).len() <= next.voters(term, candidate).len(),
{
    lemma_len_subset(next.voters(term, candidate), next.members);
    lemma_len_subset(c.voters(term, candidate), next.voters(term, candidate));
}

/// A cluster at its start has sound records.
pub proof fn lemma_init_election_inv(c: Cluster)
    requires
        c.init(),
    ensures
        c.election_inv(),
{
}

/// The record of votes stays sound when a node moves as the rules let it,
/// provided that the votes it has counted as candidate are on record.
proof fn lemma_moved_votes(c: Cluster, next: Cluster, id: u64, after: NodeView)
    requires
        c.well_formed(),
        c.votes_recorded(),
        c.moved_to(next, id, after),
        after.wf(),
        moves(c.nodes[id], after),
        after.role is Candidate ==> forall|i: int|
            0 <= i < after.role->votes.len() ==> next.votes.contains(
                Vote {
                    term: after.current_term,
                    voter: #[trigger] after.role->votes[i],
                    candidate: id,
                },
            ),
    ensures
        next.well_formed(),
        next.votes_recorded(),
        c.votes.subset_of(next.votes),
{
    let before = c.nodes[id];
    assert(next.nodes.dom() =~= next.members);
    assert forall|x: u64| #[trigger] next.members.contains(x) implies {
        &&& next.nodes[x].id == x
        &&& next.nodes[x].peers.to_set() == next.members.remove(x)
        &&& next.nodes[x].wf()
    } by {
        assert(c.members.contains(x));
    }
    assert forall|v: Vote| #[trigger] next.votes.contains(v) implies next.vote_binds(v) by {
        if c.votes.contains(v) {
            assert(c.vote_binds(v));
        }
    }
    assert forall|v: Vote, w: Vote|
        #[trigger] next.votes.contains(v) && #[trigger] next.votes.contains(w) && v.term == w.term
            && v.voter == w.voter implies v.candidate == w.candidate by {
        if c.votes.contains(v) {
            assert(c.vote_binds(v));
        }
        if c.votes.contains(w) {
            assert(c.vote_binds(w));
        }
    }
    assert forall|x: u64| #[trigger] next.members.contains(x) implies next.counted_votes_cast(
        x,
    ) by {
        if x != id {
            assert(c.counted_votes_cast(x));
        }
    }
}

/// A node that rises to leader does so in a term that nobody won before.
proof fn lemma_term_is_new(c: Cluster, next: Cluster, id: u64, after: NodeView)
    requires
        c.election_inv(),
        next.well_formed(),
        next.votes_recorded(),
        c.votes.subset_of(next.votes),
        c.moved_to(next, id, after),
        after.role is Leader,
        2 * next.voters(after.current_term, id).len() > next.members.len(),
        (c.nodes[id].role is Candidate && c.nodes[id].current_term == after.current_term)
            || after.current_term > c.nodes[id].current_term,
    ensures
        !c.leaders.contains_key(after.current_term),
{
    let term = after.current_term;
    if c.leaders.contains_key(term) {
        let other = c.leaders[term];
        assert(c.won(term));
        lemma_voters_grow(c, next, term, other);
        lemma_quorums_meet(next.members, next.voters(term, other), next.voters(term, id));
        let x = choose|x: u64|
            next.voters(term, other).contains(x) && next.voters(term, id).contains(x);
        assert(next.votes.contains(Vote { term, voter: x, candidate: other }));
        assert(next.votes.contains(Vote { term, voter: x, candidate: id }));
        assert(other == id);
    }
}

/// The record of elections stays sound when a node moves as the rules let
/// it, provided that it rises to candidate only in a new term or stays one in
/// its term, and rises to leader only with the votes of a quorum on record.
proof fn lemma_moved_leaders(c: Cluster, next: Cluster, id: u64, after: NodeView)
    requires
        c.election_inv(),
        next.well_formed(),
        next.votes_recorded(),
        c.votes.subset_of(next.votes),
        c.moved_to(next, id, after),
        moves(c.nodes[id], after),
        after.role is Candidate ==> (c.nodes[id].role is Candidate && c.nodes[id].current_term
            == after.current_term) || after.current_term > c.nodes[id].current_term,
        after.role is Leader ==> (c.nodes[id].role is Leader && c.nodes[id].current_term
            == after.current_term) || {
            &&& 2 * next.voters(after.current_term, id).len() > next.members.len()
            &&& (c.nodes[id].role is Candidate && c.nodes[id].current_term == after.current_term)
                || after.current_term > c.nodes[id].current_term
        },
    ensures
        next.leaders_recorded(),
{
    let before = c.nodes[id];
    let term = after.current_term;
    let stays = before.role is Leader && before.current_term == term;
    if after.role is Leader && !stays {
        lemma_term_is_new(c, next, id, after);
    }
    assert forall|t: u64| #[trigger] next.leaders.contains_key(t) implies next.won(t) by {
        if after.role is Leader && t == term {
            if stays {
                assert(c.won(t));
                lemma_voters_grow(c, next, t, id);
            }
        } else {
            assert(c.won(t));
            lemma_voters_grow(c, next, t, c.leaders[t]);
        }
    }
    assert forall|x: u64|
        #[trigger] next.members.contains(x) && next.nodes[x].role is Leader implies {
        &&& next.leaders.contains_key(next.nodes[x].current_term)
        &&& next.leaders[next.nodes[x].current_term] == x
    } by {
        if x != id {
            assert(c.members.contains(x));
        }
    }
}

/// A step in which a node neither starts an election nor counts a vote
/// keeps the records sound.
proof fn lemma_settled(c: Cluster, next: Cluster, id: u64, after: NodeView)
    requires
        c.election_inv(),
        c.moved_to(next, id, after),
        after.wf(),
        settles(c.nodes[id], after),
    ensures
        next.election_inv(),
{
    assert(c.counted_votes_cast(id));
    lemma_moved_votes(c, next, id, after);
    lemma_moved_leaders(c, next, id, after);
}

/// A step in which a node starts an election keeps the records sound.
pub proof fn lemma_timeout(c: Cluster, node: u64)
    requires
        c.election_inv(),
        c.members.contains(node),
    ensures
        c.after(Step::Timeout { node }).election_inv(),
        c.nodes[node].timed_out().role is Leader && !(c.nodes[node].role is Leader)
            ==> !c.leaders.contains_key(c.nodes[node].timed_out().current_term),
{
    let before = c.nodes[node];
    let after = before.timed_out();
    let next = c.after(Step::Timeout { node });
    lemma_rules_keep_wf(before);
    lemma_rules_settle(before);
    if before.can_campaign() {
        let term = after.current_term;
        assert(seq![node][0] == node);
        lemma_moved_votes(c, next, node, after);
        if after.role is Leader {
            lemma_cluster_size(c, node);
            assert(seq![node].no_duplicates());
            lemma_counted_votes(next, node, term, seq![node]);
            lemma_term_is_new(c, next, node, after);
        }
        lemma_moved_leaders(c, next, node, after);
    } else {
        lemma_settled(c, next, node, after);
    }
}

/// A step in which a node receives an answer to its call for votes keeps
/// the records sound.
pub proof fn lemma_vote_reply(c: Cluster, msg: VoteReplyMsg)
    requires
        c.election_inv(),
        c.enabled(Step::DeliverVoteReply { msg }),
    ensures
        c.after(Step::DeliverVoteReply { msg }).election_inv(),
        c.nodes[msg.to].vote_counted(msg.from, msg.reply).role is Leader && !(
        c.nodes[msg.to].role is Leader) ==> !c.leaders.contains_key(
            c.nodes[msg.to].vote_counted(msg.from, msg.reply).current_term,
        ),
{
    let id = msg.to;
    let before = c.nodes[id];
    let after = before.vote_counted(msg.from, msg.reply);
    let next = c.after(Step::DeliverVoteReply { msg });
    lemma_rules_keep_wf(before);
    lemma_rules_settle(before);
    if msg.reply.term <= before.current_term && before.counts_vote(msg.from, msg.reply) {
        let term = before.current_term;
        let votes = before.role->votes.push(msg.from);
        let counted = NodeView { role: RoleView::Candidate { votes }, ..before };
        crate::model::lemma_vote_counted_wf(before, msg.from, msg.reply);
        assert(c.counted_votes_cast(id));
        assert(c.votes.contains(Vote { term, voter: msg.from, candidate: id }));
        assert forall|i: int| 0 <= i < votes.len() implies c.members.contains(#[trigger] votes[i])
            && next.votes.contains(Vote { term, voter: votes[i], candidate: id }) by {
            if i < votes.len() - 1 {
                assert(votes[i] == before.role->votes[i]);
            }
            if votes[i] != id {
                assert(before.peers.contains(votes[i]));
                assert(before.peers.to_set().contains(votes[i]));
            }
        }
        lemma_moved_votes(c, next, id, after);
        if after.role is Leader {
            lemma_cluster_size(c, id);
            assert(votes.no_duplicates()) by {
                assert(before.role->votes.no_duplicates());
                assert(!before.role->votes.contains(msg.from));
                assert forall|i: int, j: int|
                    0 <= i < votes.len() && 0 <= j < votes.len() && i != j implies votes[i]
                    != votes[j] by {
                    if i < votes.len() - 1 {
                        assert(votes[i] == before.role->votes[i]);
                    }
                    if j < votes.len() - 1 {
                        assert(votes[j] == before.role->votes[j]);
                    }
                }
            }
            lemma_counted_votes(next, id, term, votes);
            lemma_term_is_new(c, next, id, after);
        }
        lemma_moved_leaders(c, next, id, after);
    } else {
        lemma_settled(c, next, id, after);
    }
}

/// Every step keeps the records of votes and elections sound.
pub proof fn lemma_step_keeps_election_inv(c: Cluster, step: Step)
    requires
        c.election_inv(),
        c.enabled(step),
    ensures
        c.after(step).election_inv(),
{
    let next = c.after(step);
    match step {
        Step::Timeout { node } => {
            lemma_timeout(c, node);
        },
        Step::Restart { node } => {
            lemma_rules_settle(c.nodes[node]);
            lemma_settled(c, next, node, c.nodes[node].restarted());
        },
        Step::Submit { node, command } => {
            lemma_rules_keep_wf(c.nodes[node]);
            lemma_rules_settle(c.nodes[node]);
            lemma_settled(c, next, node, c.nodes[node].submitted(command));
        },
        Step::Apply { node } => {
            lemma_rules_keep_wf(c.nodes[node]);
            lemma_rules_settle(c.nodes[node]);
            lemma_settled(c, next, node, c.nodes[node].applied());
        },
        Step::DeliverVoteRequest { node, request } => {
            lemma_rules_keep_wf(c.nodes[node]);
            lemma_rules_settle(c.nodes[node]);
            lemma_settled(c, next, node, c.nodes[node].voted(request));
        },
        Step::DeliverVoteReply { msg } => {
            lemma_vote_reply(c, msg);
        },
        Step::SendAppend { node, peer } => {
            lemma_settled(c, next, node, c.nodes[node]);
        },
        Step::DeliverAppend { msg } => {
            lemma_rules_keep_wf(c.nodes[msg.to]);
            lemma_rules_settle(c.nodes[msg.to]);
            lemma_settled(c, next, msg.to, c.nodes[msg.to].appended(msg.request));
        },
        Step::DeliverAppendReply { msg } => {
            let id = msg.request.leader_id;
            lemma_rules_keep_wf(c.nodes[id]);
            lemma_rules_settle(c.nodes[id]);
            lemma_settled(
                c,
                next,
                id,
                c.nodes[id].append_answered(msg.from, msg.request, msg.reply),
            );
        },
    }
}

/// Sound records leave room for one leader per term only.
pub proof fn lemma_one_leader_per_term(c: Cluster)
    requires
        c.election_inv(),
    ensures
        c.election_safe(),
{
}

} // verus!
