//! Progress: whatever state a cluster has reached, any quorum of its nodes
//! can elect a leader and have a command committed and applied, by steps of
//! its own and without a restart.
//!
//! That the nodes do take such steps in time depends on their timers and on
//! the network, of which this model knows nothing; what is proved here is
//! that the protocol never leaves a quorum without a way forward.

use crate::cluster::{AppendMsg, AppendReplyMsg, Cluster, Step, Vote, VoteReplyMsg};
use crate::command::CommandView;
use crate::commit::carries;
use crate::completeness::lemma_chosen_alive;
use crate::election::{lemma_cluster_size, lemma_one_leader_per_term, lemma_quorums_meet};
use crate::log::{agrees, first_conflict, last_term, lemma_first_conflict, EntryView, LogView};
use crate::matching::{agree_upto, logs_match, same_term_at};
use crate::message::{AppendEntriesReply, AppendEntriesView, RequestVoteRequest};
use crate::model::{
    count_reaching, is_prefix, lemma_highest_committable, NodeView, RoleView,
};
use crate::statemachine::{holders, lemma_count_holders};
use crate::statemachine::{lemma_sound, lemma_step_keeps_safe, lemma_step_keeps_sound};
use vstd::prelude::*;
use vstd::set_lib::*;

verus! {

/// The cluster after the steps of `steps`, taken in order from `c`.
pub open spec fn run_from(c: Cluster, steps: Seq<Step>) -> Cluster
    decreases steps.len(),
{
    if steps.len() == 0 {
        c
    } else {
        run_from(c, steps.drop_last()).after(steps.last())
    }
}

/// Every step of `steps`, taken in order from `c`, can happen when its turn
/// comes, is about a node of `quorum`, and is no restart.
pub open spec fn steps_allowed(c: Cluster, quorum: Set<u64>, steps: Seq<Step>) -> bool {
    forall|i: int|
        0 <= i < steps.len() ==> {
            &&& run_from(c, steps.take(i)).enabled(#[trigger] steps[i])
            &&& quorum.contains(steps[i].actor())
            &&& !(steps[i] is Restart)
        }
}

/// The nodes of `quorum` can bring the cluster from `c` to `target` by
/// steps of their own, without a restart.
pub open spec fn reaches(c: Cluster, quorum: Set<u64>, target: Cluster) -> bool {
    exists|steps: Seq<Step>| steps_allowed(c, quorum, steps) && run_from(c, steps) == target
}

/// No step at all leaves the cluster where it is.
pub proof fn lemma_reaches_self(c: Cluster, quorum: Set<u64>)
    ensures
        reaches(c, quorum, c),
{
    let steps = Seq::<Step>::empty();
    assert(steps_allowed(c, quorum, steps) && run_from(c, steps) == c);
}

/// One more step that the quorum can take reaches one state further.
pub proof fn lemma_reaches_step(c: Cluster, quorum: Set<u64>, mid: Cluster, step: Step)
    requires
        reaches(c, quorum, mid),
        mid.enabled(step),
        quorum.contains(step.actor()),
        !(step is Restart),
    ensures
        reaches(c, quorum, mid.after(step)),
{
    let steps = choose|steps: Seq<Step>|
        steps_allowed(c, quorum, steps) && run_from(c, steps) == mid;
    let longer = steps.push(step);
    assert(longer.drop_last() =~= steps);
    assert forall|i: int| 0 <= i < longer.len() implies {
        &&& run_from(c, longer.take(i)).enabled(#[trigger] longer[i])
        &&& quorum.contains(longer[i].actor())
        &&& !(longer[i] is Restart)
    } by {
        if i < steps.len() {
            assert(longer.take(i) =~= steps.take(i));
            assert(longer[i] == steps[i]);
        } else {
            assert(longer.take(i) =~= steps);
        }
    }
    assert(steps_allowed(c, quorum, longer) && run_from(c, longer) == mid.after(step));
}

/// What the quorum reaches from a state in which the invariant holds is a
/// state of the same members in which the invariant holds.
pub proof fn lemma_reaches_safe(c: Cluster, quorum: Set<u64>, target: Cluster)
    requires
        c.safe_inv(),
        reaches(c, quorum, target),
    ensures
        target.safe_inv(),
        target.sound(),
        target.members == c.members,
{
    lemma_sound(target);
    let steps = choose|steps: Seq<Step>|
        steps_allowed(c, quorum, steps) && run_from(c, steps) == target;
    lemma_run_safe(c, quorum, steps);
}

/// Steps that can happen in turn lead from a state in which the invariant
/// holds to one of the same members in which it holds.
proof fn lemma_run_safe(c: Cluster, quorum: Set<u64>, steps: Seq<Step>)
    requires
        c.safe_inv(),
        steps_allowed(c, quorum, steps),
    ensures
        run_from(c, steps).safe_inv(),
        run_from(c, steps).members == c.members,
    decreases steps.len(),
{
    if steps.len() > 0 {
        let shorter = steps.drop_last();
        assert forall|i: int| 0 <= i < shorter.len() implies {
            &&& run_from(c, shorter.take(i)).enabled(#[trigger] shorter[i])
            &&& quorum.contains(shorter[i].actor())
            &&& !(shorter[i] is Restart)
        } by {
            assert(shorter.take(i) =~= steps.take(i));
            assert(shorter[i] == steps[i]);
        }
        lemma_run_safe(c, quorum, shorter);
        assert(steps.take(steps.len() - 1) =~= shorter);
        assert(run_from(c, shorter).enabled(steps[steps.len() - 1]));
        lemma_step_keeps_safe(run_from(c, shorter), steps.last());
    }
}

/// A finite set that is not empty has a member at which `key` is highest.
pub proof fn lemma_highest(s: Set<u64>, key: spec_fn(u64) -> int) -> (top: u64)
    requires
        s.finite(),
        s.len() > 0,
    ensures
        s.contains(top),
        forall|x: u64| s.contains(x) ==> key(x) <= key(top),
    decreases s.len(),
{
    broadcast use vstd::set::group_set_axioms;

    let a = s.choose();
    let rest = s.remove(a);
    if rest.len() == 0 {
        assert forall|x: u64| s.contains(x) implies x == a by {
            if x != a {
                assert(rest.contains(x));
            }
        }
        a
    } else {
        let b = lemma_highest(rest, key);
        let top = if key(a) >= key(b) {
            a
        } else {
            b
        };
        assert forall|x: u64| s.contains(x) implies key(x) <= key(top) by {
            if x != a {
                assert(rest.contains(x));
            }
        }
        top
    }
}

/// What a step leaves as it was: the members, every node but the one it is
/// about, and all that was under way.
pub proof fn lemma_frame(c: Cluster, step: Step)
    ensures
        c.after(step).members == c.members,
        c.after(step).nodes == c.nodes.insert(step.actor(), c.moved(step)),
        c.vote_requests.subset_of(c.after(step).vote_requests),
        c.vote_replies.subset_of(c.after(step).vote_replies),
        c.append_requests.subset_of(c.after(step).append_requests),
        c.append_replies.subset_of(c.after(step).append_replies),
{
}

/// A number that is higher for the log that passes for more up to date: the
/// term of the last entry counts first, the length second.
pub open spec fn freshness(log: LogView) -> int {
    last_term(log) * 0x1_0000_0000_0000_0000 + log.len()
}

/// A node grants the more up-to-date log that it is at least as up to date.
pub proof fn lemma_fresher_is_up_to_date(voter: NodeView, candidate: NodeView)
    requires
        voter.wf(),
        candidate.wf(),
        freshness(voter.log) <= freshness(candidate.log),
    ensures
        voter.candidate_up_to_date(candidate.vote_request()),
{
}

impl Cluster {
    /// `quorum` is more than half of the members, and the terms and logs of
    /// its nodes leave room for two more elections and two more entries.
    pub open spec fn has_room(self, quorum: Set<u64>) -> bool {
        &&& quorum.subset_of(self.members)
        &&& 2 * quorum.len() > self.members.len()
        &&& forall|q: u64|
            quorum.contains(q) ==> (#[trigger] self.nodes[q]).current_term + 2 < u64::MAX
                && self.nodes[q].log.len() + 2 < u64::MAX
    }

    /// Node `x` of the quorum leads, in a term that no node of the quorum
    /// has passed.
    pub open spec fn led_by(self, quorum: Set<u64>, x: u64) -> bool {
        &&& self.sound()
        &&& quorum.subset_of(self.members)
        &&& 2 * quorum.len() > self.members.len()
        &&& quorum.contains(x)
        &&& self.nodes[x].role is Leader
        &&& forall|q: u64|
            quorum.contains(q) ==> (#[trigger] self.nodes[q]).current_term
                <= self.nodes[x].current_term
    }

    /// Node `x` of the quorum stands for election, or leads already, in a
    /// term that no node of the quorum has passed. Its call for votes is
    /// under way; it has counted the votes of the nodes of the quorum that
    /// are not in `todo`; and the nodes in `todo` are in earlier terms, with
    /// logs no more up to date than its own.
    pub open spec fn standing(self, quorum: Set<u64>, x: u64, todo: Set<u64>) -> bool {
        let node = self.nodes[x];
        &&& self.sound()
        &&& quorum.subset_of(self.members)
        &&& 2 * quorum.len() > self.members.len()
        &&& quorum.contains(x)
        &&& todo.subset_of(quorum.remove(x))
        &&& node.log.len() + 2 < u64::MAX
        &&& node.role is Candidate || node.role is Leader
        &&& node.role is Candidate ==> {
            &&& self.vote_requests.contains(node.vote_request())
            &&& !node.is_quorum(node.role->votes.len() as int)
            &&& forall|q: u64|
                quorum.contains(q) && !todo.contains(q) ==> node.role->votes.contains(q)
        }
        &&& forall|q: u64|
            todo.contains(q) ==> (#[trigger] self.nodes[q]).current_term < node.current_term
                && freshness(self.nodes[q].log) <= freshness(node.log)
        &&& forall|q: u64|
            quorum.contains(q) ==> (#[trigger] self.nodes[q]).current_term <= node.current_term
    }
}

/// A node in an earlier term, with a log no more up to date than the
/// candidate's, grants the candidate's call and joins its term.
proof fn lemma_vote_granted(c: Cluster, x: u64, q: u64) -> (msg: VoteReplyMsg)
    requires
        c.sound(),
        c.members.contains(x),
        c.members.contains(q),
        x != q,
        c.vote_requests.contains(c.nodes[x].vote_request()),
        c.nodes[q].current_term < c.nodes[x].current_term,
        freshness(c.nodes[q].log) <= freshness(c.nodes[x].log),
    ensures
        msg == (VoteReplyMsg {
            from: q,
            to: x,
            reply: c.nodes[q].vote_reply(c.nodes[x].vote_request()),
        }),
        msg.reply.vote_granted,
        msg.reply.term == c.nodes[x].current_term,
        c.moved(Step::DeliverVoteRequest { node: q, request: c.nodes[x].vote_request() }).current_term
            == c.nodes[x].current_term,
        c.moved(Step::DeliverVoteRequest { node: q, request: c.nodes[x].vote_request() }).log
            == c.nodes[q].log,
        c.after(
            Step::DeliverVoteRequest { node: q, request: c.nodes[x].vote_request() },
        ).vote_replies.contains(msg),
{
    let node = c.nodes[x];
    let voter = c.nodes[q];
    lemma_sound(c);
    assert(node.wf() && voter.wf());
    lemma_fresher_is_up_to_date(voter, node);
    assert(voter.grants_vote(node.vote_request()));
    VoteReplyMsg { from: q, to: x, reply: voter.vote_reply(node.vote_request()) }
}

/// A candidate that receives a vote granted in its term by a peer whose
/// vote it has not counted counts it, and leads if that makes a quorum.
proof fn lemma_vote_taken(c: Cluster, msg: VoteReplyMsg)
    requires
        c.sound(),
        c.members.contains(msg.to),
        c.members.contains(msg.from),
        msg.to != msg.from,
        c.vote_replies.contains(msg),
        c.nodes[msg.to].role is Candidate,
        msg.reply.vote_granted,
        msg.reply.term == c.nodes[msg.to].current_term,
    ensures
        c.moved(Step::DeliverVoteReply { msg }) == (NodeView {
            role: RoleView::Candidate { votes: c.nodes[msg.to].role->votes.push(msg.from) },
            ..c.nodes[msg.to]
        }).promoted_if_elected() || c.nodes[msg.to].role->votes.contains(msg.from),
{
    let x = msg.to;
    let q = msg.from;
    let node = c.nodes[x];
    lemma_sound(c);
    assert(node.wf());
    assert(node.peers.contains(q)) by {
        assert(c.members.remove(x).contains(q));
        assert(node.peers.to_set().contains(q));
    }
}

/// A candidate has counted no vote of a node that is in an earlier term.
proof fn lemma_not_counted(c: Cluster, x: u64, q: u64)
    requires
        c.sound(),
        c.members.contains(x),
        c.nodes[x].role is Candidate,
        c.nodes[q].current_term < c.nodes[x].current_term,
    ensures
        !c.nodes[x].role->votes.contains(q),
{
    let node = c.nodes[x];
    lemma_sound(c);
    if node.role->votes.contains(q) {
        let i = choose|i: int| 0 <= i < node.role->votes.len() && node.role->votes[i] == q;
        assert(c.counted_votes_cast(x));
        let v = Vote { term: node.current_term, voter: q, candidate: x };
        assert(c.votes.contains(v));
        assert(c.vote_binds(v));
    }
}

/// A candidate whose call one more node of the quorum answers has that
/// node's vote counted.
proof fn lemma_collect_vote(
    c0: Cluster,
    quorum: Set<u64>,
    c: Cluster,
    x: u64,
    todo: Set<u64>,
    q: u64,
) -> (c2: Cluster)
    requires
        reaches(c0, quorum, c),
        c.standing(quorum, x, todo),
        todo.contains(q),
    ensures
        reaches(c0, quorum, c2),
        c2.standing(quorum, x, todo.remove(q)),
{
    let node = c.nodes[x];
    let voter = c.nodes[q];
    assert(c.members.contains(x) && c.members.contains(q));
    if node.role is Leader {
        c
    } else {
        let request = node.vote_request();
        let term = node.current_term;
        // The voter receives the call and grants its vote.
        let deliver = Step::DeliverVoteRequest { node: q, request };
        let c1 = c.after(deliver);
        let msg = lemma_vote_granted(c, x, q);
        lemma_frame(c, deliver);
        lemma_step_keeps_sound(c, deliver);
        lemma_reaches_step(c0, quorum, c, deliver);
        assert(c1.nodes[x] == node);
        assert(c1.nodes[q] == c.moved(deliver));
        // The candidate receives the answer and counts the vote.
        let count = Step::DeliverVoteReply { msg };
        let c2 = c1.after(count);
        lemma_frame(c1, count);
        lemma_step_keeps_sound(c1, count);
        lemma_reaches_step(c0, quorum, c1, count);
        lemma_vote_taken(c1, msg);
        lemma_not_counted(c, x, q);
        let after = c2.nodes[x];
        assert(after == c1.moved(count));
        lemma_still_standing(c, c2, quorum, x, todo, q);
        c2
    }
}

/// With the vote of `q` counted, the candidate stands as before with `q`
/// off the list.
proof fn lemma_still_standing(
    c: Cluster,
    c2: Cluster,
    quorum: Set<u64>,
    x: u64,
    todo: Set<u64>,
    q: u64,
)
    requires
        c.standing(quorum, x, todo),
        todo.contains(q),
        c.nodes[x].role is Candidate,
        c2.sound(),
        c2.members == c.members,
        c.vote_requests.subset_of(c2.vote_requests),
        c2.nodes[x] == (NodeView {
            role: RoleView::Candidate { votes: c.nodes[x].role->votes.push(q) },
            ..c.nodes[x]
        }).promoted_if_elected(),
        c2.nodes[q].current_term == c.nodes[x].current_term,
        forall|p: u64| p != x && p != q ==> c2.nodes[p] == c.nodes[p],
    ensures
        c2.standing(quorum, x, todo.remove(q)),
{
    let node = c.nodes[x];
    let after = c2.nodes[x];
    let votes = node.role->votes.push(q);
    if after.role is Candidate {
        assert(after.vote_request() == node.vote_request());
        assert forall|p: u64| quorum.contains(p) && !todo.remove(q).contains(p) implies votes.contains(
            p,
        ) by {
            if p == q {
                assert(votes[votes.len() - 1] == q);
            } else {
                assert(node.role->votes.contains(p));
                let i = choose|i: int| 0 <= i < node.role->votes.len() && node.role->votes[i] == p;
                assert(votes[i] == p);
            }
        }
    }
    assert forall|p: u64| todo.remove(q).contains(p) implies (#[trigger] c2.nodes[p]).current_term
        < after.current_term && freshness(c2.nodes[p].log) <= freshness(after.log) by {
        assert(todo.contains(p));
        assert(c2.nodes[p] == c.nodes[p]);
    }
    assert forall|p: u64| quorum.contains(p) implies (#[trigger] c2.nodes[p]).current_term
        <= after.current_term by {
        if p != q && p != x {
            assert(c2.nodes[p] == c.nodes[p]);
        }
    }
}

/// A candidate whose call every node of the quorum answers comes to lead.
proof fn lemma_collect_votes(c0: Cluster, quorum: Set<u64>, c: Cluster, x: u64, todo: Set<u64>) -> (c2:
    Cluster)
    requires
        reaches(c0, quorum, c),
        c.standing(quorum, x, todo),
    ensures
        reaches(c0, quorum, c2),
        c2.led_by(quorum, x),
        c2.nodes[x].log.len() + 2 < u64::MAX,
    decreases todo.len(),
{
    broadcast use vstd::set::group_set_axioms;

    assert(c.members.finite()) by {
        lemma_sound(c);
    }
    lemma_len_subset(quorum, c.members);
    lemma_len_subset(quorum.remove(x), quorum);
    lemma_len_subset(todo, quorum.remove(x));
    if todo.len() == 0 {
        let node = c.nodes[x];
        assert(c.members.contains(x));
        lemma_sound(c);
        assert(node.wf());
        if node.role is Candidate {
            // It has counted the whole quorum, which is enough to be elected.
            let votes = node.role->votes;
            assert(quorum.subset_of(votes.to_set())) by {
                assert forall|q: u64| quorum.contains(q) implies votes.to_set().contains(q) by {
                    if todo.contains(q) {
                        assert(todo.len() > 0);
                    }
                    assert(votes.contains(q));
                }
            }
            votes.unique_seq_to_set();
            vstd::seq_lib::seq_to_set_is_finite(votes);
            lemma_len_subset(quorum, votes.to_set());
            lemma_cluster_size(c, x);
            assert(false);
        }
        c
    } else {
        let q = todo.choose();
        let c1 = lemma_collect_vote(c0, quorum, c, x, todo, q);
        lemma_collect_votes(c0, quorum, c1, x, todo.remove(q))
    }
}

/// Where the quorum stands in terms and logs: no node of it is past term
/// `top`, each has the log it has in `c`, and each log leaves room.
pub open spec fn held_back(c: Cluster, c2: Cluster, quorum: Set<u64>, top: int) -> bool {
    &&& c2.sound()
    &&& c2.members == c.members
    &&& forall|q: u64|
        quorum.contains(q) ==> {
            &&& (#[trigger] c2.nodes[q]).current_term <= top
            &&& c2.nodes[q].log == c.nodes[q].log
            &&& c2.nodes[q].log.len() + 2 < u64::MAX
        }
}

/// A node that does not lead starts an election when its timer fires, and
/// its call for votes is under way.
proof fn lemma_timeout_step(c: Cluster, x: u64)
    requires
        c.sound(),
        c.members.contains(x),
        !(c.nodes[x].role is Leader),
        c.nodes[x].current_term < u64::MAX,
    ensures
        c.after(Step::Timeout { node: x }).sound(),
        c.after(Step::Timeout { node: x }).nodes[x] == c.nodes[x].timed_out(),
        c.nodes[x].timed_out().current_term == c.nodes[x].current_term + 1,
        c.nodes[x].timed_out().log == c.nodes[x].log,
        c.nodes[x].timed_out().role is Candidate || c.nodes[x].timed_out().role is Leader,
        c.nodes[x].timed_out().role is Candidate ==> c.nodes[x].timed_out().role->votes == seq![x]
            && !c.nodes[x].timed_out().is_quorum(1),
        c.after(Step::Timeout { node: x }).vote_requests.contains(
            c.nodes[x].timed_out().vote_request(),
        ),
{
    let step = Step::Timeout { node: x };
    lemma_sound(c);
    lemma_step_keeps_sound(c, step);
    let node = c.nodes[x];
    assert(node.wf());
    assert(node.id == x);
}

/// A node that hears of a higher term in a call for votes joins that term
/// as a follower, with the log it has.
proof fn lemma_told_of_term(c: Cluster, x: u64, request: RequestVoteRequest)
    requires
        c.sound(),
        c.members.contains(x),
        c.vote_requests.contains(request),
        request.term > c.nodes[x].current_term,
    ensures
        c.after(Step::DeliverVoteRequest { node: x, request }).sound(),
        c.moved(Step::DeliverVoteRequest { node: x, request }).current_term == request.term,
        c.moved(Step::DeliverVoteRequest { node: x, request }).log == c.nodes[x].log,
        !(c.moved(Step::DeliverVoteRequest { node: x, request }).role is Leader),
{
    lemma_step_keeps_sound(c, Step::DeliverVoteRequest { node: x, request });
}

/// The quorum can bring node `x`, if it is not the node that is furthest in
/// terms, into the term after the furthest, as a follower, and leave all
/// logs as they are.
proof fn lemma_raise(c: Cluster, quorum: Set<u64>, x: u64, y: u64, top: int) -> (c2: Cluster)
    requires
        held_back(c, c, quorum, top),
        quorum.subset_of(c.members),
        quorum.contains(x),
        quorum.contains(y),
        x != y,
        top + 2 < u64::MAX,
        c.nodes[y].current_term == top,
        !(c.nodes[y].role is Leader),
    ensures
        reaches(c, quorum, c2),
        held_back(c, c2, quorum, top + 1),
        !(c2.nodes[x].role is Leader),
        c2.nodes[x].current_term == top + 1,
{
    lemma_reaches_self(c, quorum);
    let raise = Step::Timeout { node: y };
    let c1 = c.after(raise);
    lemma_timeout_step(c, y);
    lemma_frame(c, raise);
    lemma_reaches_step(c, quorum, c, raise);
    let request = c.nodes[y].timed_out().vote_request();
    assert(c1.nodes[x] == c.nodes[x]);
    let tell = Step::DeliverVoteRequest { node: x, request };
    let c2 = c1.after(tell);
    lemma_told_of_term(c1, x, request);
    lemma_frame(c1, tell);
    lemma_reaches_step(c, quorum, c1, tell);
    assert forall|q: u64| quorum.contains(q) implies {
        &&& (#[trigger] c2.nodes[q]).current_term <= top + 1
        &&& c2.nodes[q].log == c.nodes[q].log
        &&& c2.nodes[q].log.len() + 2 < u64::MAX
    } by {
        assert(c.nodes[q].current_term <= top);
        if q != x && q != y {
            assert(c2.nodes[q] == c.nodes[q]);
        } else if q == y {
            assert(c2.nodes[y] == c1.nodes[y]);
        }
    }
    c2
}

/// The quorum can bring the node with the most up-to-date log, if it is in
/// the furthest term and does not lead, to stand for election in the next.
proof fn lemma_stand(c: Cluster, c2: Cluster, quorum: Set<u64>, x: u64, top: int) -> (c3: Cluster)
    requires
        reaches(c, quorum, c2),
        held_back(c, c2, quorum, top),
        quorum.subset_of(c.members),
        2 * quorum.len() > c.members.len(),
        quorum.contains(x),
        top + 1 < u64::MAX,
        c2.nodes[x].current_term == top,
        !(c2.nodes[x].role is Leader),
        forall|q: u64| quorum.contains(q) ==> freshness(c.nodes[q].log) <= freshness(c.nodes[x].log),
    ensures
        reaches(c, quorum, c3),
        c3.standing(quorum, x, quorum.remove(x)),
{
    let stand = Step::Timeout { node: x };
    let c3 = c2.after(stand);
    lemma_timeout_step(c2, x);
    lemma_frame(c2, stand);
    lemma_reaches_step(c, quorum, c2, stand);
    let todo = quorum.remove(x);
    let after = c3.nodes[x];
    if after.role is Candidate {
        assert(seq![x][0] == x);
        assert(after.role->votes.contains(x));
    }
    assert forall|q: u64| todo.contains(q) implies (#[trigger] c3.nodes[q]).current_term
        < after.current_term && freshness(c3.nodes[q].log) <= freshness(after.log) by {
        assert(c3.nodes[q] == c2.nodes[q]);
        assert(quorum.contains(q));
    }
    assert forall|q: u64| quorum.contains(q) implies (#[trigger] c3.nodes[q]).current_term
        <= after.current_term by {
        if q != x {
            assert(c3.nodes[q] == c2.nodes[q]);
        }
    }
    c3
}

/// The nodes of a quorum with room can bring one of them to lead them all.
#[verifier::rlimit(50)]
pub proof fn lemma_elect(c: Cluster, quorum: Set<u64>) -> (elected: (Cluster, u64))
    requires
        c.sound(),
        c.has_room(quorum),
    ensures
        reaches(c, quorum, elected.0),
        elected.0.led_by(quorum, elected.1),
        elected.0.nodes[elected.1].log.len() + 2 < u64::MAX,
{
    broadcast use vstd::set::group_set_axioms;

    assert(c.members.finite()) by {
        lemma_sound(c);
    }
    lemma_len_subset(quorum, c.members);
    lemma_reaches_self(c, quorum);
    let term_of = |q: u64| c.nodes[q].current_term as int;
    let fresh_of = |q: u64| freshness(c.nodes[q].log);
    let y = lemma_highest(quorum, term_of);
    let x = lemma_highest(quorum, fresh_of);
    let top = c.nodes[y].current_term as int;
    assert forall|q: u64| quorum.contains(q) implies (#[trigger] c.nodes[q]).current_term
        <= top && freshness(c.nodes[q].log) <= freshness(c.nodes[x].log) by {
        assert(term_of(q) <= term_of(y));
        assert(fresh_of(q) <= fresh_of(x));
    }
    assert(held_back(c, c, quorum, top));
    if c.nodes[y].role is Leader {
        (c, y)
    } else if x == y {
        let c3 = lemma_stand(c, c, quorum, x, top);
        let c4 = lemma_collect_votes(c, quorum, c3, x, quorum.remove(x));
        (c4, x)
    } else {
        let c2 = lemma_raise(c, quorum, x, y, top);
        let c3 = lemma_stand(c, c2, quorum, x, top + 1);
        let c4 = lemma_collect_votes(c, quorum, c3, x, quorum.remove(x));
        (c4, x)
    }
}

/// A leader that no node of a quorum has passed in terms holds every entry
/// on record as committed.
proof fn lemma_leader_holds_committed(c: Cluster, quorum: Set<u64>, x: u64)
    requires
        c.led_by(quorum, x),
    ensures
        is_prefix(c.committed, c.nodes[x].log),
{
    lemma_sound(c);
    let n = c.committed.len() as int;
    if n > 0 {
        let term = c.committed[n - 1].term;
        let led = c.nodes[x].current_term;
        lemma_chosen_alive(c, term, n);
        lemma_quorums_meet(c.members, c.ackers(term, n), quorum);
        let q = choose|q: u64| c.ackers(term, n).contains(q) && quorum.contains(q);
        assert(c.nodes[q].current_term >= term) by {
            if c.leaders.contains_key(term) && c.leaders[term] == q {
                assert(c.won(term));
            } else {
                assert(c.ack_sound(term, q));
            }
        }
        assert(c.nodes[q].current_term <= led);
        assert(c.members.contains(x));
        assert(c.leader_logs.contains_key(led) && c.leader_logs[led] == c.nodes[x].log);
        let mine = c.nodes[x].log;
        let theirs = c.leader_logs[term];
        if led > term {
            assert(c.is_pair(term, n));
            assert(carries(mine, term, n));
            assert(c.holds_log(mine) && c.holds_log(theirs));
            assert(logs_match(mine, theirs));
            assert(same_term_at(mine, theirs, n - 1));
            assert(agree_upto(mine, theirs, n - 1));
        }
    }
}

impl Cluster {
    /// The leader `x` is spreading the entry at index `n`, the last of its
    /// log and of its own term, among the nodes of the quorum. None of them
    /// is past its term; it knows those in `done` to hold the entry; and it
    /// has committed the entry if it knows a quorum to hold it.
    pub open spec fn spreading(self, quorum: Set<u64>, x: u64, n: int, done: Set<u64>) -> bool {
        let node = self.nodes[x];
        &&& self.led_by(quorum, x)
        &&& node.log.len() == n
        &&& n >= 1
        &&& node.log[n - 1].term == node.current_term
        &&& done.subset_of(quorum.remove(x))
        &&& forall|q: u64|
            done.contains(q) ==> #[trigger] node.role->match_index[node.peers.index_of(q)] >= n
        &&& node.is_quorum(count_reaching(node.role->match_index, n) + 1) ==> node.commit_index
            >= n
    }
}

/// A follower of the quorum that receives the leader's call takes its term
/// and stores the entries if it has the entry that they follow.
proof fn lemma_follower_answers(c: Cluster, quorum: Set<u64>, x: u64, q: u64, msg: AppendMsg)
    requires
        c.led_by(quorum, x),
        quorum.contains(q),
        q != x,
        msg.to == q,
        msg.log == c.nodes[x].log,
        msg.request == c.nodes[x].append_request(q)->0,
        c.nodes[x].append_request(q) is Some,
    ensures
        c.nodes[q].heeds(msg.request),
        c.nodes[q].accepts(msg.request) == c.nodes[q].has_prev(msg.request),
        c.nodes[q].appended(msg.request).current_term == c.nodes[x].current_term,
        msg.request.prev_log_index == 0 ==> c.nodes[q].has_prev(msg.request),
        msg.request.prev_log_index + msg.request.entries.len() == c.nodes[x].log.len(),
        msg.request.prev_log_index + 1 == c.nodes[x].role->next_index[c.nodes[x].peers.index_of(
            q,
        )],
        msg.request.term == c.nodes[x].current_term,
        msg.request.leader_id == x,
{
    lemma_sound(c);
    lemma_leader_holds_committed(c, quorum, x);
    lemma_one_leader_per_term(c);
    let node = c.nodes[x];
    let voter = c.nodes[q];
    let request = msg.request;
    let prev = request.prev_log_index as int;
    let entries = request.entries;
    assert(c.members.contains(x) && c.members.contains(q));
    assert(node.wf() && voter.wf());
    let p = node.peers.index_of(q);
    assert(node.peers.contains(q));
    assert(0 <= p < node.peers.len() && node.peers[p] == q);
    assert(c.commits_recorded(q));
    lemma_first_conflict(voter.log, prev, entries, 0);
    let k = first_conflict(voter.log, prev, entries, 0);
    if k < entries.len() && prev + k < voter.commit_index {
        assert(entries[k] == node.log[prev + k]);
        assert(voter.log[prev + k] == c.committed[prev + k]);
        assert(node.log[prev + k] == c.committed[prev + k]);
        assert(agrees(voter.log, prev, entries, k));
    }
}

/// What a leader makes of an answer in its term to a call that offered it
/// the whole rest of its log, whose last entry is of its term: after a
/// success it knows the peer to hold the log, and has committed the last
/// entry if it knows a quorum to hold it; after a failure it will next offer
/// one entry more.
proof fn lemma_leader_hears(
    node: NodeView,
    from: u64,
    request: AppendEntriesView,
    reply: AppendEntriesReply,
)
    requires
        node.wf(),
        node.role is Leader,
        node.peers.contains(from),
        request.term == node.current_term,
        request.leader_id == node.id,
        reply.term == node.current_term,
        request.prev_log_index + request.entries.len() == node.log.len(),
        node.log.len() >= 1,
        node.log[node.log.len() - 1].term == node.current_term,
        node.is_quorum(count_reaching(node.role->match_index, node.log.len() as int) + 1)
            ==> node.commit_index >= node.log.len(),
    ensures
        ({
            let after = node.append_answered(from, request, reply);
            let p = node.peers.index_of(from);
            let n = node.log.len() as int;
            &&& after.role is Leader
            &&& after.log == node.log
            &&& after.current_term == node.current_term
            &&& after.is_quorum(count_reaching(after.role->match_index, n) + 1)
                ==> after.commit_index >= n
            &&& reply.success ==> after.role->match_index == node.role->match_index.update(
                p,
                n as u64,
            )
            &&& !reply.success ==> after.role->match_index == node.role->match_index
                && after.role->next_index[p] == if node.role->next_index[p] > 1 {
                node.role->next_index[p] - 1
            } else {
                1
            }
        }),
{
    let p = node.peers.index_of(from);
    let n = node.log.len() as int;
    assert(0 <= p < node.peers.len());
    if reply.success {
        let recorded = NodeView {
            role: RoleView::Leader {
                next_index: node.role->next_index.update(p, (n + 1) as u64),
                match_index: node.role->match_index.update(p, n as u64),
            },
            ..node
        };
        lemma_highest_committable(recorded, n);
        if recorded.is_quorum(count_reaching(recorded.role->match_index, n) + 1)
            && recorded.commit_index < n {
            assert(recorded.committable(n));
        }
    }
}

/// The leader sends a follower of the quorum its call.
proof fn lemma_send_step(c: Cluster, quorum: Set<u64>, x: u64, q: u64) -> (msg: AppendMsg)
    requires
        c.led_by(quorum, x),
        quorum.contains(q),
        q != x,
    ensures
        c.enabled(Step::SendAppend { node: x, peer: q }),
        c.after(Step::SendAppend { node: x, peer: q }).led_by(quorum, x),
        c.after(Step::SendAppend { node: x, peer: q }).nodes == c.nodes,
        c.after(Step::SendAppend { node: x, peer: q }).append_requests.contains(msg),
        c.nodes[x].append_request(q) is Some,
        c.nodes[x].peers.contains(q),
        msg == (AppendMsg { to: q, request: c.nodes[x].append_request(q)->0, log: c.nodes[x].log }),
{
    let node = c.nodes[x];
    let send = Step::SendAppend { node: x, peer: q };
    lemma_sound(c);
    assert(c.members.contains(x) && c.members.contains(q));
    assert(c.members.remove(x).contains(q));
    assert(node.peers.to_set().contains(q));
    lemma_frame(c, send);
    lemma_step_keeps_sound(c, send);
    assert(c.after(send).nodes =~= c.nodes);
    AppendMsg { to: q, request: node.append_request(q)->0, log: node.log }
}

/// The follower receives the call and answers it, in the leader's term, and
/// with success if the call offered the whole log.
proof fn lemma_deliver_step(c: Cluster, quorum: Set<u64>, x: u64, q: u64, msg: AppendMsg) -> (answer:
    AppendReplyMsg)
    requires
        c.led_by(quorum, x),
        quorum.contains(q),
        q != x,
        c.append_requests.contains(msg),
        msg == (AppendMsg { to: q, request: c.nodes[x].append_request(q)->0, log: c.nodes[x].log }),
        c.nodes[x].append_request(q) is Some,
    ensures
        c.enabled(Step::DeliverAppend { msg }),
        c.after(Step::DeliverAppend { msg }).led_by(quorum, x),
        c.after(Step::DeliverAppend { msg }).nodes[x] == c.nodes[x],
        c.after(Step::DeliverAppend { msg }).append_replies.contains(answer),
        answer.from == q,
        answer.request == msg.request,
        answer.reply.term == c.nodes[x].current_term,
        msg.request.prev_log_index == 0 ==> answer.reply.success,
        msg.request.term == c.nodes[x].current_term,
        msg.request.leader_id == x,
        msg.request.prev_log_index + msg.request.entries.len() == c.nodes[x].log.len(),
        msg.request.prev_log_index + 1 == c.nodes[x].role->next_index[c.nodes[x].peers.index_of(
            q,
        )],
{
    let deliver = Step::DeliverAppend { msg };
    let c2 = c.after(deliver);
    let voter = c.nodes[q];
    assert(c.members.contains(q) && c.members.contains(x) && c.nodes[x].id == x) by {
        lemma_sound(c);
    }
    lemma_follower_answers(c, quorum, x, q, msg);
    lemma_frame(c, deliver);
    lemma_step_keeps_sound(c, deliver);
    assert forall|r: u64| quorum.contains(r) implies (#[trigger] c2.nodes[r]).current_term
        <= c2.nodes[x].current_term by {
        if r != q {
            assert(c2.nodes[r] == c.nodes[r]);
        }
    }
    AppendReplyMsg { from: q, request: msg.request, reply: voter.append_reply(msg.request) }
}

/// The leader receives the follower's answer. After it the leader knows the
/// follower to hold the entry, or will next offer it one entry more.
proof fn lemma_hear_step(
    c: Cluster,
    quorum: Set<u64>,
    x: u64,
    n: int,
    done: Set<u64>,
    q: u64,
    answer: AppendReplyMsg,
)
    requires
        c.spreading(quorum, x, n, done),
        quorum.contains(q),
        q != x,
        c.append_replies.contains(answer),
        answer.from == q,
        answer.request.term == c.nodes[x].current_term,
        answer.request.leader_id == x,
        answer.reply.term == c.nodes[x].current_term,
        answer.request.prev_log_index + answer.request.entries.len() == n,
        answer.request.prev_log_index + 1 == c.nodes[x].role->next_index[c.nodes[x].peers.index_of(
            q,
        )],
        answer.request.prev_log_index == 0 ==> answer.reply.success,
    ensures
        c.enabled(Step::DeliverAppendReply { msg: answer }),
        c.after(Step::DeliverAppendReply { msg: answer }).spreading(quorum, x, n, done.insert(q))
            || (c.after(Step::DeliverAppendReply { msg: answer }).spreading(quorum, x, n, done)
            && c.after(Step::DeliverAppendReply { msg: answer }).nodes[x].role->next_index[c.nodes[x].peers.index_of(
            q,
        )] < c.nodes[x].role->next_index[c.nodes[x].peers.index_of(q)]),
        c.after(Step::DeliverAppendReply { msg: answer }).nodes[x].peers == c.nodes[x].peers,
        c.after(Step::DeliverAppendReply { msg: answer }).nodes[x].log == c.nodes[x].log,
        c.after(Step::DeliverAppendReply { msg: answer }).nodes[x].current_term
            == c.nodes[x].current_term,
{
    let hear = Step::DeliverAppendReply { msg: answer };
    let c3 = c.after(hear);
    let node = c.nodes[x];
    assert(c.members.contains(x) && c.members.contains(q));
    assert(node.wf() && node.peers.contains(q) && node.id == x) by {
        lemma_sound(c);
        assert(c.members.remove(x).contains(q));
        assert(node.peers.to_set().contains(q));
    }
    let p = node.peers.index_of(q);
    lemma_frame(c, hear);
    lemma_step_keeps_sound(c, hear);
    lemma_leader_hears(node, q, answer.request, answer.reply);
    let after = c3.nodes[x];
    assert(after == node.append_answered(q, answer.request, answer.reply));
    assert forall|r: u64| quorum.contains(r) implies (#[trigger] c3.nodes[r]).current_term
        <= after.current_term by {
        if r != x {
            assert(c3.nodes[r] == c.nodes[r]);
        }
    }
    assert(c3.led_by(quorum, x));
    if answer.reply.success {
        assert forall|r: u64| done.insert(q).contains(r) implies #[trigger] after.role->match_index[after.peers.index_of(
            r,
        )] >= n by {
            if r != q {
                assert(done.contains(r));
                assert(node.role->match_index[node.peers.index_of(r)] >= n);
                lemma_peer_position(c, x, r);
            }
        }
    } else {
        assert forall|r: u64| done.contains(r) implies #[trigger] after.role->match_index[after.peers.index_of(
            r,
        )] >= n by {
            assert(node.role->match_index[node.peers.index_of(r)] >= n);
        }
    }
}

/// Every other member is among the peers of a node, at its own position.
proof fn lemma_peer_position(c: Cluster, x: u64, r: u64)
    requires
        c.sound(),
        c.members.contains(x),
        c.members.contains(r),
        x != r,
    ensures
        c.nodes[x].peers.contains(r),
        0 <= c.nodes[x].peers.index_of(r) < c.nodes[x].peers.len(),
        c.nodes[x].peers[c.nodes[x].peers.index_of(r)] == r,
        c.nodes[x].peers.no_duplicates(),
{
    lemma_sound(c);
    assert(c.members.remove(x).contains(r));
    assert(c.nodes[x].peers.to_set().contains(r));
    assert(c.nodes[x].wf());
}

/// One exchange between the leader and a follower of the quorum: the leader
/// sends its call, the follower answers, the leader hears the answer. After
/// it the leader knows the follower to hold the entry, or will next offer
/// it one entry more than this time.
proof fn lemma_exchange(
    c0: Cluster,
    quorum: Set<u64>,
    c: Cluster,
    x: u64,
    n: int,
    done: Set<u64>,
    q: u64,
) -> (c3: Cluster)
    requires
        reaches(c0, quorum, c),
        c.spreading(quorum, x, n, done),
        quorum.contains(q),
        q != x,
    ensures
        reaches(c0, quorum, c3),
        c3.spreading(quorum, x, n, done.insert(q)) || (c3.spreading(quorum, x, n, done)
            && c3.nodes[x].role->next_index[c3.nodes[x].peers.index_of(q)]
            < c.nodes[x].role->next_index[c.nodes[x].peers.index_of(q)]),
        c3.nodes[x].log == c.nodes[x].log,
        c3.nodes[x].current_term == c.nodes[x].current_term,
{
    let send = Step::SendAppend { node: x, peer: q };
    let c1 = c.after(send);
    let msg = lemma_send_step(c, quorum, x, q);
    lemma_reaches_step(c0, quorum, c, send);
    assert(c1.nodes[x] == c.nodes[x]);
    let deliver = Step::DeliverAppend { msg };
    let c2 = c1.after(deliver);
    let answer = lemma_deliver_step(c1, quorum, x, q, msg);
    lemma_reaches_step(c0, quorum, c1, deliver);
    assert(c2.nodes[x] == c.nodes[x]);
    assert(c2.spreading(quorum, x, n, done));
    let hear = Step::DeliverAppendReply { msg: answer };
    let c3 = c2.after(hear);
    lemma_hear_step(c2, quorum, x, n, done, q, answer);
    lemma_reaches_step(c0, quorum, c2, hear);
    c3
}

/// The leader and a follower of the quorum can go on until the leader knows
/// the follower to hold the entry.
proof fn lemma_spread_to(
    c0: Cluster,
    quorum: Set<u64>,
    c: Cluster,
    x: u64,
    n: int,
    done: Set<u64>,
    q: u64,
) -> (c2: Cluster)
    requires
        reaches(c0, quorum, c),
        c.spreading(quorum, x, n, done),
        quorum.contains(q),
        q != x,
    ensures
        reaches(c0, quorum, c2),
        c2.spreading(quorum, x, n, done.insert(q)),
        c2.nodes[x].log == c.nodes[x].log,
        c2.nodes[x].current_term == c.nodes[x].current_term,
    decreases c.nodes[x].role->next_index[c.nodes[x].peers.index_of(q)],
{
    let c1 = lemma_exchange(c0, quorum, c, x, n, done, q);
    if c1.spreading(quorum, x, n, done.insert(q)) {
        c1
    } else {
        lemma_spread_to(c0, quorum, c1, x, n, done, q)
    }
}

/// The leader and the followers of the quorum can go on until the leader
/// knows them all to hold the entry.
proof fn lemma_spread(
    c0: Cluster,
    quorum: Set<u64>,
    c: Cluster,
    x: u64,
    n: int,
    done: Set<u64>,
    todo: Set<u64>,
) -> (c2: Cluster)
    requires
        reaches(c0, quorum, c),
        c.spreading(quorum, x, n, done),
        todo.finite(),
        todo.subset_of(quorum.remove(x)),
        forall|q: u64| quorum.contains(q) && q != x && !todo.contains(q) ==> done.contains(q),
    ensures
        reaches(c0, quorum, c2),
        c2.spreading(quorum, x, n, quorum.remove(x)),
        c2.nodes[x].log == c.nodes[x].log,
        c2.nodes[x].current_term == c.nodes[x].current_term,
    decreases todo.len(),
{
    broadcast use vstd::set::group_set_axioms;

    if todo.len() == 0 {
        assert(done =~= quorum.remove(x)) by {
            assert forall|q: u64| quorum.remove(x).contains(q) implies done.contains(q) by {
                if todo.contains(q) {
                    assert(todo.len() > 0);
                }
            }
        }
        c
    } else {
        let q = todo.choose();
        let c1 = lemma_spread_to(c0, quorum, c, x, n, done, q);
        lemma_spread(c0, quorum, c1, x, n, done.insert(q), todo.remove(q))
    }
}

/// A leader of the quorum takes a command and begins to spread its entry.
proof fn lemma_submit_step(c: Cluster, quorum: Set<u64>, x: u64, command: CommandView)
    requires
        c.led_by(quorum, x),
        c.nodes[x].log.len() + 2 < u64::MAX,
    ensures
        c.enabled(Step::Submit { node: x, command }),
        c.after(Step::Submit { node: x, command }).spreading(
            quorum,
            x,
            (c.nodes[x].log.len() + 1) as int,
            Set::empty(),
        ),
        c.after(Step::Submit { node: x, command }).nodes[x].log == c.nodes[x].log.push(
            EntryView {
                term: c.nodes[x].current_term,
                index: (c.nodes[x].log.len() + 1) as u64,
                command,
            },
        ),
        c.after(Step::Submit { node: x, command }).nodes[x].current_term
            == c.nodes[x].current_term,
{
    let step = Step::Submit { node: x, command };
    let c1 = c.after(step);
    let node = c.nodes[x];
    assert(c.members.contains(x) && node.wf()) by {
        lemma_sound(c);
    }
    lemma_frame(c, step);
    lemma_step_keeps_sound(c, step);
    let entry = EntryView { term: node.current_term, index: (node.log.len() + 1) as u64, command };
    let extended = NodeView { log: node.log.push(entry), ..node };
    let n = (node.log.len() + 1) as int;
    lemma_highest_committable(extended, n);
    if extended.is_quorum(count_reaching(extended.role->match_index, n) + 1)
        && extended.commit_index < n {
        assert(extended.committable(n));
    }
    let after = c1.nodes[x];
    assert(after == extended.commit_advanced());
    assert forall|r: u64| quorum.contains(r) implies (#[trigger] c1.nodes[r]).current_term
        <= after.current_term by {
        if r != x {
            assert(c1.nodes[r] == c.nodes[r]);
        }
    }
}

/// A leader that knows every other node of the quorum to hold the entry has
/// committed it.
proof fn lemma_spread_commits(c: Cluster, quorum: Set<u64>, x: u64, n: int)
    requires
        c.spreading(quorum, x, n, quorum.remove(x)),
    ensures
        c.nodes[x].commit_index >= n,
{
    broadcast use vstd::set::group_set_axioms;

    let node = c.nodes[x];
    lemma_sound(c);
    assert(c.members.contains(x) && node.wf());
    let held = holders(node.peers, node.role->match_index, n);
    lemma_count_holders(node.peers, node.role->match_index, n);
    lemma_cluster_size(c, x);
    lemma_len_subset(quorum, c.members);
    assert forall|q: u64| quorum.remove(x).contains(q) implies held.contains(q) by {
        lemma_peer_position(c, x, q);
        assert(node.role->match_index[node.peers.index_of(q)] >= n);
    }
    lemma_len_subset(quorum.remove(x), held);
}

/// A leader that has committed the entry that it spread applies it.
proof fn lemma_apply_step(c: Cluster, quorum: Set<u64>, x: u64, n: int)
    requires
        c.spreading(quorum, x, n, quorum.remove(x)),
    ensures
        c.enabled(Step::Apply { node: x }),
        c.after(Step::Apply { node: x }).sound(),
        c.after(Step::Apply { node: x }).nodes[x].role is Leader,
        c.after(Step::Apply { node: x }).nodes[x].last_applied >= n,
        c.after(Step::Apply { node: x }).nodes[x].log == c.nodes[x].log,
        c.after(Step::Apply { node: x }).nodes[x].current_term == c.nodes[x].current_term,
{
    let apply = Step::Apply { node: x };
    lemma_spread_commits(c, quorum, x, n);
    lemma_frame(c, apply);
    lemma_step_keeps_sound(c, apply);
}

/// Progress is possible. Whatever state a cluster has reached, any quorum
/// of its nodes whose terms and logs leave room can, by steps of its own
/// and without a restart, come to a state in which one of its nodes leads
/// and has appended, committed and applied an entry with `command`.
///
/// Returns that state, the leader, and the index of the entry.
#[verifier::rlimit(50)]
pub proof fn lemma_progress_is_possible(c: Cluster, quorum: Set<u64>, command: CommandView) -> (end:
    (Cluster, u64, int))
    requires
        c.sound(),
        c.has_room(quorum),
    ensures
        reaches(c, quorum, end.0),
        end.0.sound(),
        quorum.contains(end.1),
        end.0.nodes[end.1].role is Leader,
        1 <= end.2 <= end.0.nodes[end.1].last_applied,
        end.2 <= end.0.nodes[end.1].log.len(),
        end.0.nodes[end.1].log[end.2 - 1].command == command,
        end.0.nodes[end.1].log[end.2 - 1].term == end.0.nodes[end.1].current_term,
{
    let (c1, x) = lemma_elect(c, quorum);
    let n = (c1.nodes[x].log.len() + 1) as int;
    // The leader takes the command.
    let submit = Step::Submit { node: x, command };
    let c2 = c1.after(submit);
    lemma_submit_step(c1, quorum, x, command);
    lemma_reaches_step(c, quorum, c1, submit);
    // Every other node of the quorum comes to hold the entry.
    let todo = quorum.remove(x);
    assert(todo.finite()) by {
        lemma_sound(c);
        lemma_len_subset(quorum, c.members);
    }
    let c3 = lemma_spread(c, quorum, c2, x, n, Set::empty(), todo);
    // The leader applies what it has committed.
    let apply = Step::Apply { node: x };
    lemma_apply_step(c3, quorum, x, n);
    lemma_reaches_step(c, quorum, c3, apply);
    (c3.after(apply), x, n)
}

} // verus!
