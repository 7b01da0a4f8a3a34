//! A model of a whole cluster: every node's state, the messages under way,
//! and the steps by which both change.
//!
//! Messages may be delayed, reordered, repeated or never delivered: one that
//! was sent stays available for delivery ever after, and no step has to
//! happen. A node may restart at any time and keeps only what it persisted.
//! Besides the nodes and the messages the model keeps records of the past,
//! on which nothing that a node does depends: the votes cast, the elections
//! won and by whose votes, the log of each leader, what followers
//! acknowledged, and the entries committed so far. The safety proofs are
//! stated over them.

use crate::command::CommandView;
use crate::log::{EntryView, LogView};
use crate::message::{
    AppendEntriesReply, AppendEntriesView, RequestVoteReply, RequestVoteRequest,
};
use crate::model::NodeView;
use vstd::prelude::*;

verus! {

/// The answer of node `from` to the call for votes of node `to`.
pub struct VoteReplyMsg {
    pub from: u64,
    pub to: u64,
    pub reply: RequestVoteReply,
}

/// A call to replicate entries on its way to node `to`. `log` is the
/// sender's log at the time of sending; it is not part of what is delivered.
pub struct AppendMsg {
    pub to: u64,
    pub request: AppendEntriesView,
    pub log: LogView,
}

/// The answer of node `from` to the call `request`, on its way to the
/// leader named in the call.
pub struct AppendReplyMsg {
    pub from: u64,
    pub request: AppendEntriesView,
    pub reply: AppendEntriesReply,
}

/// A vote: `voter` voted for `candidate` in `term`.
pub struct Vote {
    pub term: u64,
    pub voter: u64,
    pub candidate: u64,
}

/// The state of a cluster.
pub struct Cluster {
    /// The ids of the nodes.
    pub members: Set<u64>,
    /// The state of each node.
    pub nodes: Map<u64, NodeView>,
    /// The calls for votes that were sent.
    pub vote_requests: Set<RequestVoteRequest>,
    /// The answers to calls for votes that were sent.
    pub vote_replies: Set<VoteReplyMsg>,
    /// The calls to replicate entries that were sent.
    pub append_requests: Set<AppendMsg>,
    /// The answers to calls to replicate entries that were sent.
    pub append_replies: Set<AppendReplyMsg>,
    /// Every vote cast so far.
    pub votes: Set<Vote>,
    /// For every term in which a node became leader so far, that node.
    pub leaders: Map<u64, u64>,
    /// For every such term, the members whose votes for the leader were on
    /// record when it became leader.
    pub electors: Map<u64, Set<u64>>,
    /// For every such term, the log of the leader when it last moved as
    /// leader of that term.
    pub leader_logs: Map<u64, LogView>,
    /// For a term and a node, the highest index up to which the node
    /// acknowledged, in that term, that it holds the leader's entries.
    pub acked: Map<(u64, u64), int>,
    /// The longest sequence of entries that some node has had committed.
    pub committed: LogView,
}

/// One step of a cluster.
#[allow(inconsistent_fields)]
pub enum Step {
    /// The election timer of `node` fires.
    Timeout { node: u64 },
    /// `node` stops and starts again from what it persisted.
    Restart { node: u64 },
    /// A client submits `command` to `node`.
    Submit { node: u64, command: CommandView },
    /// `node` applies what it has committed.
    Apply { node: u64 },
    /// `node` receives the call for a vote `request` and answers it.
    DeliverVoteRequest { node: u64, request: RequestVoteRequest },
    /// The candidate that `msg` is for receives it.
    DeliverVoteReply { msg: VoteReplyMsg },
    /// `node` sends `peer` a call to replicate entries.
    SendAppend { node: u64, peer: u64 },
    /// The node that `msg` is for receives it and answers it.
    DeliverAppend { msg: AppendMsg },
    /// The leader that `msg` is for receives it.
    DeliverAppendReply { msg: AppendReplyMsg },
}

impl Step {
    /// The node that the step is about.
    pub open spec fn actor(self) -> u64 {
        match self {
            Step::Timeout { node } => node,
            Step::Restart { node } => node,
            Step::Submit { node, command } => node,
            Step::Apply { node } => node,
            Step::DeliverVoteRequest { node, request } => node,
            Step::DeliverVoteReply { msg } => msg.to,
            Step::SendAppend { node, peer } => node,
            Step::DeliverAppend { msg } => msg.to,
            Step::DeliverAppendReply { msg } => msg.request.leader_id,
        }
    }
}

impl Cluster {
    /// The members are finitely many, and every member is a node that knows
    /// its own id and has exactly the other members as peers.
    pub open spec fn well_formed(self) -> bool {
        &&& self.members.finite()
        &&& self.nodes.dom() == self.members
        &&& forall|id: u64| #[trigger]
            self.members.contains(id) ==> {
                &&& self.nodes[id].id == id
                &&& self.nodes[id].peers.to_set() == self.members.remove(id)
                &&& self.nodes[id].wf()
            }
    }

    /// A cluster at its start: every node is new, nothing was sent, no vote
    /// was cast and no election won.
    pub open spec fn init(self) -> bool {
        &&& self.well_formed()
        &&& forall|id: u64| #[trigger]
            self.members.contains(id) ==> self.nodes[id] == NodeView::initial(
                id,
                self.nodes[id].peers,
            )
        &&& self.vote_requests == Set::<RequestVoteRequest>::empty()
        &&& self.vote_replies == Set::<VoteReplyMsg>::empty()
        &&& self.append_requests == Set::<AppendMsg>::empty()
        &&& self.append_replies == Set::<AppendReplyMsg>::empty()
        &&& self.votes == Set::<Vote>::empty()
        &&& self.leaders == Map::<u64, u64>::empty()
        &&& self.electors == Map::<u64, Set<u64>>::empty()
        &&& self.leader_logs == Map::<u64, LogView>::empty()
        &&& self.acked == Map::<(u64, u64), int>::empty()
        &&& self.committed == Seq::<EntryView>::empty()
    }

    /// The votes on record once node `id` has moved to state `after`: the
    /// vote that the node then holds is among them.
    pub open spec fn votes_with(self, id: u64, after: NodeView) -> Set<Vote> {
        match after.voted_for {
            Some(candidate) => self.votes.insert(
                Vote { term: after.current_term, voter: id, candidate },
            ),
            None => self.votes,
        }
    }

    /// The cluster after node `id` moved to state `after`. The records take
    /// in the vote that the node now holds; where it leads, its term, its
    /// log and, for a term not won before, the members whose votes for it
    /// are on record; and its committed entries where they are more than
    /// were committed anywhere before.
    pub open spec fn acted(self, id: u64, after: NodeView) -> Cluster {
        let votes = self.votes_with(id, after);
        let term = after.current_term;
        Cluster {
            nodes: self.nodes.insert(id, after),
            votes,
            leaders: if after.role is Leader {
                self.leaders.insert(term, id)
            } else {
                self.leaders
            },
            electors: if after.role is Leader && !self.leaders.contains_key(term) {
                self.electors.insert(
                    term,
                    Set::new(
                        |voter: u64|
                            self.members.contains(voter) && votes.contains(
                                Vote { term, voter, candidate: id },
                            ),
                    ),
                )
            } else {
                self.electors
            },
            leader_logs: if after.role is Leader {
                self.leader_logs.insert(term, after.log)
            } else {
                self.leader_logs
            },
            committed: if after.commit_index > self.committed.len() {
                after.log.take(after.commit_index as int)
            } else {
                self.committed
            },
            ..self
        }
    }

    /// Whether `step` can happen: the node that it is about is a member, and
    /// what is delivered was sent.
    pub open spec fn enabled(self, step: Step) -> bool {
        &&& self.members.contains(step.actor())
        &&& match step {
            Step::DeliverVoteRequest { node, request } => self.vote_requests.contains(request),
            Step::DeliverVoteReply { msg } => self.vote_replies.contains(msg),
            Step::SendAppend { node, peer } => self.nodes[node].append_request(peer) is Some,
            Step::DeliverAppend { msg } => self.append_requests.contains(msg),
            Step::DeliverAppendReply { msg } => self.append_replies.contains(msg),
            _ => true,
        }
    }

    /// The state of the node that `step` is about, after the step.
    pub open spec fn moved(self, step: Step) -> NodeView {
        let before = self.nodes[step.actor()];
        match step {
            Step::Timeout { node } => before.timed_out(),
            Step::Restart { node } => before.restarted(),
            Step::Submit { node, command } => before.submitted(command),
            Step::Apply { node } => before.applied(),
            Step::DeliverVoteRequest { node, request } => before.voted(request),
            Step::DeliverVoteReply { msg } => before.vote_counted(msg.from, msg.reply),
            Step::SendAppend { node, peer } => before,
            Step::DeliverAppend { msg } => before.appended(msg.request),
            Step::DeliverAppendReply { msg } => before.append_answered(
                msg.from,
                msg.request,
                msg.reply,
            ),
        }
    }

    /// The index up to which the follower of a delivered call holds the
    /// leader's entries once it has taken them in.
    pub open spec fn acked_upto(msg: AppendMsg) -> int {
        msg.request.prev_log_index + msg.request.entries.len()
    }

    /// The cluster after `step`: the node that the step is about has moved,
    /// and what it sent is under way.
    pub open spec fn after(self, step: Step) -> Cluster {
        let before = self.nodes[step.actor()];
        let next = self.acted(step.actor(), self.moved(step));
        match step {
            Step::Timeout { node } => if before.can_campaign() {
                Cluster {
                    vote_requests: self.vote_requests.insert(before.timed_out().vote_request()),
                    ..next
                }
            } else {
                next
            },
            Step::DeliverVoteRequest { node, request } => Cluster {
                vote_replies: self.vote_replies.insert(
                    VoteReplyMsg {
                        from: node,
                        to: request.candidate_id,
                        reply: before.vote_reply(request),
                    },
                ),
                ..next
            },
            Step::SendAppend { node, peer } => Cluster {
                append_requests: self.append_requests.insert(
                    AppendMsg {
                        to: peer,
                        request: before.append_request(peer)->0,
                        log: before.log,
                    },
                ),
                ..next
            },
            Step::DeliverAppend { msg } => {
                let key = (msg.request.term, msg.to);
                Cluster {
                    append_replies: self.append_replies.insert(
                        AppendReplyMsg {
                            from: msg.to,
                            request: msg.request,
                            reply: before.append_reply(msg.request),
                        },
                    ),
                    acked: if before.accepts(msg.request) && !(self.acked.contains_key(key)
                        && self.acked[key] >= Cluster::acked_upto(msg)) {
                        self.acked.insert(key, Cluster::acked_upto(msg))
                    } else {
                        self.acked
                    },
                    ..next
                }
            },
            _ => next,
        }
    }

    /// `next` is the cluster one step after `self`.
    pub open spec fn steps_to(self, next: Cluster) -> bool {
        exists|step: Step| self.enabled(step) && next == self.after(step)
    }
}

/// A run of a cluster: it starts at the start, and each state follows from
/// the one before by one step.
pub open spec fn is_run(run: Seq<Cluster>) -> bool {
    &&& run.len() > 0
    &&& run[0].init()
    &&& forall|i: int| 0 <= i < run.len() - 1 ==> (#[trigger] run[i]).steps_to(run[i + 1])
}

} // verus!
