//! The rules of a single node, as functions on mathematical values.
//!
//! Each rule takes the node's state and one event and gives the state after
//! it, with the message to send where there is one. The executable node in
//! `raft` is specified by these functions, and the cluster model in `cluster`
//! is built from them.

use crate::command::{ApplyOutcome, CommandView};
use crate::log::{
    first_conflict, indexed_from, last_term, merged, outcome_at, term_at, EntryView, LogView,
};
use crate::message::{
    AppendEntriesReply, AppendEntriesView, RequestVoteReply, RequestVoteRequest,
};
use vstd::prelude::*;

verus! {

/// The role of a node, with the bookkeeping that belongs to that role alone.
pub enum RoleView {
    Follower,
    /// `votes` lists the nodes, this one included, that granted their vote in
    /// the current term.
    Candidate { votes: Seq<u64> },
    /// For the peer at each position of the peer list: the index of the next
    /// entry to send it, and the highest index it is known to hold.
    Leader { next_index: Seq<u64>, match_index: Seq<u64> },
}

/// The state of a node.
pub struct NodeView {
    pub id: u64,
    pub peers: Seq<u64>,
    pub current_term: u64,
    pub voted_for: Option<u64>,
    pub log: LogView,
    pub role: RoleView,
    pub commit_index: u64,
    pub last_applied: u64,
}

/// A receipt for a submitted command: the slot it was appended at and the
/// term of the leader that appended it.
#[derive(Clone, Copy, Debug, PartialEq, Eq, Structural)]
pub struct Ticket {
    pub index: u64,
    pub term: u64,
}

/// How far a submitted command has come.
#[derive(Clone, Copy, Debug, PartialEq, Eq, Structural)]
pub enum Progress {
    /// The entry is in the leader's log and not applied yet.
    Pending,
    /// The entry was applied, with this answer of the store.
    Done(ApplyOutcome),
    /// The node no longer leads the term of the submission and has not
    /// applied the entry; the command may be submitted elsewhere.
    NotLeader,
}

/// The refusal of a command by a node that does not take commands.
#[derive(Clone, Copy, Debug, PartialEq, Eq, Structural)]
pub struct NotLeader;

/// How many of the peers are known to hold the entry at index `n`.
pub open spec fn count_reaching(match_index: Seq<u64>, n: int) -> int
    decreases match_index.len(),
{
    if match_index.len() == 0 {
        0
    } else {
        count_reaching(match_index.drop_last(), n) + if match_index.last() >= n {
            1int
        } else {
            0int
        }
    }
}

impl NodeView {
    /// The state of a node that starts with nothing stored.
    pub open spec fn initial(id: u64, peers: Seq<u64>) -> NodeView {
        NodeView::restored(id, peers, 0, None, Seq::empty())
    }

    /// The state of a node that starts from what it had persisted: a follower
    /// that has committed and applied nothing yet.
    pub open spec fn restored(
        id: u64,
        peers: Seq<u64>,
        current_term: u64,
        voted_for: Option<u64>,
        log: LogView,
    ) -> NodeView {
        NodeView {
            id,
            peers,
            current_term,
            voted_for,
            log,
            role: RoleView::Follower,
            commit_index: 0,
            last_applied: 0,
        }
    }

    /// The peers are distinct and do not include the node itself.
    pub open spec fn valid_membership(id: u64, peers: Seq<u64>) -> bool {
        peers.no_duplicates() && !peers.contains(id)
    }

    /// A log that a node can hold: every entry is indexed by its slot, and the
    /// index after the last fits in 64 bits.
    pub open spec fn valid_log(log: LogView) -> bool {
        indexed_from(log, 0) && log.len() < u64::MAX
    }

    /// The invariant of a node's state.
    pub open spec fn wf(self) -> bool {
        &&& NodeView::valid_membership(self.id, self.peers)
        &&& NodeView::valid_log(self.log)
        &&& self.last_applied <= self.commit_index <= self.log.len()
        &&& match self.role {
            RoleView::Follower => true,
            RoleView::Candidate { votes } => {
                &&& self.voted_for == Some(self.id)
                &&& votes.no_duplicates()
                &&& votes.contains(self.id)
                &&& forall|i: int|
                    0 <= i < votes.len() ==> votes[i] == self.id || self.peers.contains(
                        #[trigger] votes[i],
                    )
            },
            RoleView::Leader { next_index, match_index } => {
                &&& self.voted_for == Some(self.id)
                &&& next_index.len() == self.peers.len()
                &&& match_index.len() == self.peers.len()
                &&& forall|p: int|
                    0 <= p < next_index.len() ==> 1 <= #[trigger] next_index[p] <= self.log.len()
                        + 1
            },
        }
    }

    /// The number of nodes in the cluster.
    pub open spec fn cluster_size(self) -> int {
        (self.peers.len() + 1) as int
    }

    /// `count` nodes are more than half of the cluster.
    pub open spec fn is_quorum(self, count: int) -> bool {
        2 * count > self.cluster_size()
    }

    /// The node after it met the higher term `term`: a follower in that term
    /// that has not voted.
    pub open spec fn stepped_down(self, term: u64) -> NodeView {
        NodeView { current_term: term, voted_for: None, role: RoleView::Follower, ..self }
    }

    /// The node after it saw `term` in a message: stepped down if the term is
    /// higher than its own, else unchanged.
    pub open spec fn observed(self, term: u64) -> NodeView {
        if term > self.current_term {
            self.stepped_down(term)
        } else {
            self
        }
    }

    /// The node as leader of its current term: it will send every peer the
    /// entry after its last, and knows of nothing that a peer holds.
    pub open spec fn promoted(self) -> NodeView {
        NodeView {
            role: RoleView::Leader {
                next_index: Seq::new(self.peers.len(), |p: int| (self.log.len() + 1) as u64),
                match_index: Seq::new(self.peers.len(), |p: int| 0u64),
            },
            ..self
        }
    }

    /// A candidate with the votes of a quorum becomes leader.
    pub open spec fn promoted_if_elected(self) -> NodeView {
        if self.role matches RoleView::Candidate { votes } && self.is_quorum(votes.len() as int) {
            self.promoted()
        } else {
            self
        }
    }

    // ------------------------------------------------------------------
    // Elections
    // ------------------------------------------------------------------

    /// Whether the election timer's expiry starts an election: not on a
    /// leader, whose timer is off, and not in the last term that 64 bits hold.
    pub open spec fn can_campaign(self) -> bool {
        !(self.role is Leader) && self.current_term < u64::MAX
    }

    /// The node after its election timer fired: a candidate in the next term
    /// that has voted for itself, or at once the leader where it alone is a
    /// quorum.
    pub open spec fn timed_out(self) -> NodeView {
        if self.can_campaign() {
            NodeView {
                current_term: (self.current_term + 1) as u64,
                voted_for: Some(self.id),
                role: RoleView::Candidate { votes: seq![self.id] },
                ..self
            }.promoted_if_elected()
        } else {
            self
        }
    }

    /// The call for votes of a node in its current term.
    pub open spec fn vote_request(self) -> RequestVoteRequest {
        RequestVoteRequest {
            term: self.current_term,
            candidate_id: self.id,
            last_log_index: self.log.len() as u64,
            last_log_term: last_term(self.log),
        }
    }

    /// The candidate's log is at least as up to date as this node's: its last
    /// term is higher, or the same with a log at least as long.
    pub open spec fn candidate_up_to_date(self, request: RequestVoteRequest) -> bool {
        request.last_log_term > last_term(self.log) || (request.last_log_term == last_term(
            self.log,
        ) && request.last_log_index >= self.log.len())
    }

    /// Whether the node grants the vote asked for.
    pub open spec fn grants_vote(self, request: RequestVoteRequest) -> bool {
        let node = self.observed(request.term);
        &&& request.term >= self.current_term
        &&& (node.voted_for is None || node.voted_for == Some(request.candidate_id))
        &&& self.candidate_up_to_date(request)
    }

    /// The node after a call for a vote.
    pub open spec fn voted(self, request: RequestVoteRequest) -> NodeView {
        if self.grants_vote(request) {
            NodeView { voted_for: Some(request.candidate_id), ..self.observed(request.term) }
        } else if request.term >= self.current_term {
            self.observed(request.term)
        } else {
            self
        }
    }

    /// The answer to a call for a vote.
    pub open spec fn vote_reply(self, request: RequestVoteRequest) -> RequestVoteReply {
        RequestVoteReply {
            term: self.voted(request).current_term,
            vote_granted: self.grants_vote(request),
        }
    }

    /// Whether the answer `reply` of node `from` counts as a new vote for this
    /// node: it is a candidate, the vote was granted in its current term, and
    /// `from` is a peer that it has not counted yet.
    pub open spec fn counts_vote(self, from: u64, reply: RequestVoteReply) -> bool {
        &&& self.role matches RoleView::Candidate { votes }
        &&& reply.term == self.current_term
        &&& reply.vote_granted
        &&& self.peers.contains(from)
        &&& !votes.contains(from)
    }

    /// The node after the answer `reply` of node `from` to its call for votes.
    pub open spec fn vote_counted(self, from: u64, reply: RequestVoteReply) -> NodeView {
        if reply.term > self.current_term {
            self.stepped_down(reply.term)
        } else if self.counts_vote(from, reply) {
            NodeView {
                role: RoleView::Candidate { votes: self.role->votes.push(from) },
                ..self
            }.promoted_if_elected()
        } else {
            self
        }
    }

    // ------------------------------------------------------------------
    // Replication, follower side
    // ------------------------------------------------------------------

    /// Whether the node looks at the entries of `request` at all: the call is
    /// not from an older term, and the node does not itself lead that term.
    pub open spec fn heeds(self, request: AppendEntriesView) -> bool {
        &&& request.term >= self.current_term
        &&& !(self.role is Leader && request.term == self.current_term)
    }

    /// The node after it recognised the sender of `request` as leader: a
    /// follower in the request's term.
    pub open spec fn following(self, request: AppendEntriesView) -> NodeView {
        NodeView { role: RoleView::Follower, ..self.observed(request.term) }
    }

    /// Whether the log has the entry that the new ones are to follow.
    pub open spec fn has_prev(self, request: AppendEntriesView) -> bool {
        request.prev_log_index == 0 || (request.prev_log_index <= self.log.len() && term_at(
            self.log,
            request.prev_log_index as int,
        ) == request.prev_log_term)
    }

    /// Whether the node stores the entries of `request`: it heeds the call,
    /// has the entry before them, they are indexed by the slots they go to,
    /// the last of these below the 64-bit limit, and none of them would
    /// replace an entry that is already committed.
    pub open spec fn accepts(self, request: AppendEntriesView) -> bool {
        let k = first_conflict(self.log, request.prev_log_index as int, request.entries, 0);
        &&& self.heeds(request)
        &&& self.has_prev(request)
        &&& indexed_from(request.entries, request.prev_log_index as int)
        &&& request.prev_log_index + request.entries.len() < u64::MAX
        &&& (k == request.entries.len() || request.prev_log_index + k >= self.commit_index)
    }

    /// The node after a call to replicate entries.
    pub open spec fn appended(self, request: AppendEntriesView) -> NodeView {
        if self.accepts(request) {
            let last_new = request.prev_log_index + request.entries.len();
            let known = if request.leader_commit <= last_new {
                request.leader_commit as int
            } else {
                last_new
            };
            NodeView {
                log: merged(self.log, request.prev_log_index as int, request.entries),
                commit_index: if known > self.commit_index {
                    known as u64
                } else {
                    self.commit_index
                },
                ..self.following(request)
            }
        } else if self.heeds(request) {
            self.following(request)
        } else {
            self
        }
    }

    /// The answer to a call to replicate entries.
    pub open spec fn append_reply(self, request: AppendEntriesView) -> AppendEntriesReply {
        AppendEntriesReply {
            term: self.appended(request).current_term,
            success: self.accepts(request),
        }
    }

    // ------------------------------------------------------------------
    // Replication, leader side
    // ------------------------------------------------------------------

    /// The call that a leader sends to `peer`: the entries from the peer's
    /// next index on, after the entry before them. `None` unless the node
    /// leads and `peer` is one of its peers.
    pub open spec fn append_request(self, peer: u64) -> Option<AppendEntriesView> {
        if self.role is Leader && self.peers.contains(peer) {
            let prev = self.role->next_index[self.peers.index_of(peer)] - 1;
            Some(
                AppendEntriesView {
                    term: self.current_term,
                    leader_id: self.id,
                    prev_log_index: prev as u64,
                    prev_log_term: term_at(self.log, prev),
                    entries: self.log.subrange(prev, self.log.len() as int),
                    leader_commit: self.commit_index,
                },
            )
        } else {
            None
        }
    }

    /// Whether an answer of `from` to `request` still concerns this node: it
    /// leads the term in which the request was sent, as the sender named in
    /// it, and `from` is one of its peers.
    pub open spec fn awaits_reply(self, from: u64, request: AppendEntriesView) -> bool {
        &&& self.role is Leader
        &&& request.term == self.current_term
        &&& request.leader_id == self.id
        &&& self.peers.contains(from)
    }

    /// The entry at index `n` can be committed by this leader: it is beyond
    /// the commit index, of the leader's own term, and held by a quorum, the
    /// leader included.
    pub open spec fn committable(self, n: int) -> bool {
        &&& self.role matches RoleView::Leader { next_index, match_index }
        &&& self.commit_index < n <= self.log.len()
        &&& self.log[n - 1].term == self.current_term
        &&& self.is_quorum(count_reaching(match_index, n) + 1)
    }

    /// The highest committable index that is at most `n`, or the commit index
    /// where there is none.
    pub open spec fn highest_committable(self, n: int) -> int
        decreases n,
    {
        if n <= self.commit_index {
            self.commit_index as int
        } else if self.committable(n) {
            n
        } else {
            self.highest_committable(n - 1)
        }
    }

    /// The node after a restart: a follower that kept what it had persisted,
    /// its term, its vote and its log, and has committed and applied nothing.
    pub open spec fn restarted(self) -> NodeView {
        NodeView::restored(self.id, self.peers, self.current_term, self.voted_for, self.log)
    }

    /// The node with its commit index raised to the highest committable index.
    pub open spec fn commit_advanced(self) -> NodeView {
        NodeView {
            commit_index: self.highest_committable(self.log.len() as int) as u64,
            ..self
        }
    }

    /// The node after the answer `reply` of `from` to `request`.
    ///
    /// A higher term in the answer makes the node step down. An answer that
    /// the node no longer awaits is dropped. On success the peer is recorded
    /// as holding everything up to the last entry of the request, and the
    /// commit index is advanced; on failure the peer's next index goes back
    /// by one, not below 1.
    pub open spec fn append_answered(
        self,
        from: u64,
        request: AppendEntriesView,
        reply: AppendEntriesReply,
    ) -> NodeView {
        if reply.term > self.current_term {
            self.stepped_down(reply.term)
        } else if self.awaits_reply(from, request) {
            let p = self.peers.index_of(from);
            let next_index = self.role->next_index;
            let match_index = self.role->match_index;
            let matched = request.prev_log_index + request.entries.len();
            if !reply.success {
                NodeView {
                    role: RoleView::Leader {
                        next_index: next_index.update(
                            p,
                            if next_index[p] > 1 {
                                (next_index[p] - 1) as u64
                            } else {
                                1u64
                            },
                        ),
                        match_index,
                    },
                    ..self
                }
            } else if reply.term == self.current_term && matched <= self.log.len() {
                NodeView {
                    role: RoleView::Leader {
                        next_index: next_index.update(p, (matched + 1) as u64),
                        match_index: match_index.update(p, matched as u64),
                    },
                    ..self
                }.commit_advanced()
            } else {
                self
            }
        } else {
            self
        }
    }

    // ------------------------------------------------------------------
    // Client commands and the apply cursor
    // ------------------------------------------------------------------

    /// Whether the node takes a client's command: it leads, and its log has
    /// room for one more entry.
    pub open spec fn takes_commands(self) -> bool {
        self.role is Leader && self.log.len() + 1 < u64::MAX
    }

    /// The node after a client submitted `command`: a leader appends it to
    /// its log as an entry of its term, and commits it at once where the
    /// leader alone is a quorum.
    pub open spec fn submitted(self, command: CommandView) -> NodeView {
        if self.takes_commands() {
            NodeView {
                log: self.log.push(
                    EntryView {
                        term: self.current_term,
                        index: (self.log.len() + 1) as u64,
                        command,
                    },
                ),
                ..self
            }.commit_advanced()
        } else {
            self
        }
    }

    /// The receipt for a command that the node just took.
    pub open spec fn ticket(self) -> Ticket {
        Ticket { index: (self.log.len() + 1) as u64, term: self.current_term }
    }

    /// The node after it applied every committed entry.
    pub open spec fn applied(self) -> NodeView {
        NodeView { last_applied: self.commit_index, ..self }
    }

    /// The log still holds, at the ticket's index, an entry of the ticket's
    /// term.
    pub open spec fn holds(self, ticket: Ticket) -> bool {
        1 <= ticket.index <= self.log.len() && self.log[ticket.index - 1].term == ticket.term
    }

    /// How far the command behind `ticket` has come: done once its entry is
    /// applied; pending while the node leads the ticket's term and holds the
    /// entry; else lost to this node.
    pub open spec fn progress(self, ticket: Ticket) -> Progress {
        if self.holds(ticket) && ticket.index <= self.last_applied {
            Progress::Done(outcome_at(self.log, ticket.index as int))
        } else if self.holds(ticket) && self.role is Leader && self.current_term == ticket.term {
            Progress::Pending
        } else {
            Progress::NotLeader
        }
    }
}

/// The merged log is well formed when its parts are: it holds at least the
/// slots that the entries go to, and no more than the longer of the two.
pub proof fn lemma_merged(log: LogView, prev: int, entries: LogView)
    requires
        NodeView::valid_log(log),
        0 <= prev <= log.len(),
        indexed_from(entries, prev),
        prev + entries.len() < u64::MAX,
    ensures
        NodeView::valid_log(merged(log, prev, entries)),
        0 <= first_conflict(log, prev, entries, 0) <= entries.len(),
        merged(log, prev, entries).len() >= prev + entries.len(),
        first_conflict(log, prev, entries, 0) < entries.len() ==> merged(
            log,
            prev,
            entries,
        ).len() == prev + entries.len(),
        first_conflict(log, prev, entries, 0) == entries.len() ==> merged(log, prev, entries)
            == log,
        forall|i: int|
            0 <= i < prev + first_conflict(log, prev, entries, 0) && i < log.len() ==> merged(
                log,
                prev,
                entries,
            )[i] == log[i],
{
    crate::log::lemma_first_conflict(log, prev, entries, 0);
    let k = first_conflict(log, prev, entries, 0);
    if k == entries.len() {
        if k > 0 {
            assert(crate::log::agrees(log, prev, entries, k - 1));
        }
    } else {
        if k > 0 {
            assert(crate::log::agrees(log, prev, entries, k - 1));
        }
        let m = merged(log, prev, entries);
        assert(m.len() == prev + entries.len());
        assert forall|i: int| 0 <= i < m.len() implies (#[trigger] m[i]).index == i + 1 by {
            if i < prev + k {
                assert(m[i] == log[i]);
            } else {
                assert(m[i] == entries[i - prev]);
            }
        }
    }
}

/// The highest committable index lies between the commit index and the
/// bound, and is the commit index itself or committable; nothing above it,
/// up to the bound, is committable.
pub proof fn lemma_highest_committable(node: NodeView, n: int)
    requires
        node.commit_index <= n,
    ensures
        node.commit_index <= node.highest_committable(n) <= n,
        node.highest_committable(n) == node.commit_index || node.committable(
            node.highest_committable(n),
        ),
        forall|m: int| node.highest_committable(n) < m <= n ==> !node.committable(m),
    decreases n,
{
    if n > node.commit_index && !node.committable(n) {
        lemma_highest_committable(node, n - 1);
    }
}

/// Only a leader's commit index is moved by `commit_advanced`, and never
/// down nor past the end of the log.
pub proof fn lemma_commit_advanced(node: NodeView)
    requires
        node.wf(),
    ensures
        node.commit_advanced().wf(),
        node.commit_advanced().commit_index >= node.commit_index,
        !(node.role is Leader) ==> node.commit_advanced() == node,
{
    lemma_highest_committable(node, node.log.len() as int);
    if !(node.role is Leader) {
        lemma_not_leader_nothing_committable(node, node.log.len() as int);
    }
}

/// A node that does not lead can commit nothing by itself.
pub proof fn lemma_not_leader_nothing_committable(node: NodeView, n: int)
    requires
        !(node.role is Leader),
    ensures
        node.highest_committable(n) == node.commit_index,
    decreases n,
{
    if n > node.commit_index {
        lemma_not_leader_nothing_committable(node, n - 1);
    }
}

/// Every rule keeps the invariant of a node's state.
pub proof fn lemma_rules_keep_wf(node: NodeView)
    requires
        node.wf(),
    ensures
        node.timed_out().wf(),
        forall|request: RequestVoteRequest| (#[trigger] node.voted(request)).wf(),
        forall|from: u64, reply: RequestVoteReply| (#[trigger] node.vote_counted(from, reply)).wf(),
        forall|request: AppendEntriesView| (#[trigger] node.appended(request)).wf(),
        forall|from: u64, request: AppendEntriesView, reply: AppendEntriesReply|
            (#[trigger] node.append_answered(from, request, reply)).wf(),
        forall|command: CommandView| (#[trigger] node.submitted(command)).wf(),
        node.applied().wf(),
{
    lemma_timed_out_wf(node);
    assert forall|from: u64, reply: RequestVoteReply| (#[trigger] node.vote_counted(
        from,
        reply,
    )).wf() by {
        lemma_vote_counted_wf(node, from, reply);
    }
    assert forall|request: AppendEntriesView| (#[trigger] node.appended(request)).wf() by {
        lemma_appended_wf(node, request);
    }
    assert forall|from: u64, request: AppendEntriesView, reply: AppendEntriesReply|
        (#[trigger] node.append_answered(from, request, reply)).wf() by {
        lemma_append_answered_wf(node, from, request, reply);
    }
    assert forall|command: CommandView| (#[trigger] node.submitted(command)).wf() by {
        lemma_submitted_wf(node, command);
    }
}

/// A node that has voted for itself is well formed as leader.
pub proof fn lemma_promoted_wf(node: NodeView)
    requires
        node.wf(),
        node.voted_for == Some(node.id),
    ensures
        node.promoted().wf(),
{
}

/// The start of an election keeps the invariant of a node's state.
pub proof fn lemma_timed_out_wf(node: NodeView)
    requires
        node.wf(),
    ensures
        node.timed_out().wf(),
{
    if node.can_campaign() {
        let candidate = NodeView {
            current_term: (node.current_term + 1) as u64,
            voted_for: Some(node.id),
            role: RoleView::Candidate { votes: seq![node.id] },
            ..node
        };
        assert(seq![node.id][0] == node.id);
        assert(candidate.wf());
        lemma_promoted_wf(candidate);
    }
}

/// The answer to a call for votes keeps the invariant of a node's state.
pub proof fn lemma_vote_counted_wf(node: NodeView, from: u64, reply: RequestVoteReply)
    requires
        node.wf(),
    ensures
        node.vote_counted(from, reply).wf(),
{
    if reply.term <= node.current_term && node.counts_vote(from, reply) {
        let votes = node.role->votes;
        let counted = NodeView { role: RoleView::Candidate { votes: votes.push(from) }, ..node };
        let i = choose|i: int| 0 <= i < votes.len() && votes[i] == node.id;
        assert(votes.push(from)[i] == node.id);
        assert(counted.wf());
        lemma_promoted_wf(counted);
    }
}

/// A call to replicate entries keeps the invariant of a node's state.
pub proof fn lemma_appended_wf(node: NodeView, request: AppendEntriesView)
    requires
        node.wf(),
    ensures
        node.appended(request).wf(),
{
    if node.accepts(request) {
        lemma_merged(node.log, request.prev_log_index as int, request.entries);
    }
}

/// The answer to a call to replicate entries keeps the invariant of a
/// node's state.
pub proof fn lemma_append_answered_wf(
    node: NodeView,
    from: u64,
    request: AppendEntriesView,
    reply: AppendEntriesReply,
)
    requires
        node.wf(),
    ensures
        node.append_answered(from, request, reply).wf(),
{
    if reply.term <= node.current_term && node.awaits_reply(from, request) {
        let p = node.peers.index_of(from);
        let next_index = node.role->next_index;
        let match_index = node.role->match_index;
        let matched = request.prev_log_index + request.entries.len();
        if reply.success && reply.term == node.current_term && matched <= node.log.len() {
            let recorded = NodeView {
                role: RoleView::Leader {
                    next_index: next_index.update(p, (matched + 1) as u64),
                    match_index: match_index.update(p, matched as u64),
                },
                ..node
            };
            assert(recorded.wf());
            lemma_commit_advanced(recorded);
        }
    }
}

/// A client's command keeps the invariant of a node's state.
pub proof fn lemma_submitted_wf(node: NodeView, command: CommandView)
    requires
        node.wf(),
    ensures
        node.submitted(command).wf(),
{
    if node.takes_commands() {
        let entry = EntryView {
            term: node.current_term,
            index: (node.log.len() + 1) as u64,
            command,
        };
        let extended = NodeView { log: node.log.push(entry), ..node };
        assert(extended.wf());
        lemma_commit_advanced(extended);
    }
}

/// What every rule but an election's start and a counted vote does to a
/// node: its identity stays, its term does not fall, a vote cast in a term
/// stays for that term, a candidate or leader after it was the same before,
/// in the same term, and a log that changed belongs to a follower or got
/// longer.
pub open spec fn settles(before: NodeView, after: NodeView) -> bool {
    &&& moves(before, after)
    &&& after.role is Candidate ==> after.role == before.role && after.current_term
        == before.current_term
    &&& after.role is Leader ==> before.role is Leader && after.current_term
        == before.current_term
}

/// What every rule does to a node: its identity stays, its term does not
/// fall, and a vote cast in a term stays for that term.
pub open spec fn moves(before: NodeView, after: NodeView) -> bool {
    &&& after.id == before.id
    &&& after.peers == before.peers
    &&& after.current_term >= before.current_term
    &&& after.current_term == before.current_term && before.voted_for is Some ==> after.voted_for
        == before.voted_for
}

/// `shorter` is a prefix of `longer`.
pub open spec fn is_prefix(shorter: LogView, longer: LogView) -> bool {
    &&& shorter.len() <= longer.len()
    &&& forall|i: int| 0 <= i < shorter.len() ==> shorter[i] == longer[i]
}

/// The effect of each rule on the role, the term and the vote.
pub proof fn lemma_rules_settle(node: NodeView)
    requires
        node.wf(),
    ensures
        moves(node, node.timed_out()),
        settles(node, node.restarted()),
        settles(node, node.applied()),
        forall|request: RequestVoteRequest| settles(node, #[trigger] node.voted(request)),
        forall|from: u64, reply: RequestVoteReply|
            moves(node, #[trigger] node.vote_counted(from, reply)),
        forall|request: AppendEntriesView| settles(node, #[trigger] node.appended(request)),
        forall|from: u64, request: AppendEntriesView, reply: AppendEntriesReply|
            settles(node, #[trigger] node.append_answered(from, request, reply)),
        forall|command: CommandView| settles(node, #[trigger] node.submitted(command)),
{
}

/// No rule lowers the commit index or the apply cursor of a running node,
/// and the apply cursor never passes the commit index.
pub proof fn lemma_cursors_never_fall(node: NodeView)
    requires
        node.wf(),
    ensures
        cursors_kept(node, node.timed_out()),
        cursors_kept(node, node.applied()),
        forall|request: RequestVoteRequest| cursors_kept(node, #[trigger] node.voted(request)),
        forall|from: u64, reply: RequestVoteReply|
            cursors_kept(node, #[trigger] node.vote_counted(from, reply)),
        forall|request: AppendEntriesView| cursors_kept(node, #[trigger] node.appended(request)),
        forall|from: u64, request: AppendEntriesView, reply: AppendEntriesReply|
            cursors_kept(node, #[trigger] node.append_answered(from, request, reply)),
        forall|command: CommandView| cursors_kept(node, #[trigger] node.submitted(command)),
{
    lemma_rules_keep_wf(node);
    assert forall|from: u64, request: AppendEntriesView, reply: AppendEntriesReply|
        cursors_kept(node, #[trigger] node.append_answered(from, request, reply)) by {
        lemma_append_answered_cursors(node, from, request, reply);
    }
    assert forall|command: CommandView| cursors_kept(node, #[trigger] node.submitted(command)) by {
        lemma_submitted_cursors(node, command);
    }
}

/// Neither cursor fell, and the apply cursor is within the commit index.
pub open spec fn cursors_kept(before: NodeView, after: NodeView) -> bool {
    &&& before.commit_index <= after.commit_index
    &&& before.last_applied <= after.last_applied
    &&& after.last_applied <= after.commit_index
}

/// The answer to a call to replicate entries lowers neither cursor.
proof fn lemma_append_answered_cursors(
    node: NodeView,
    from: u64,
    request: AppendEntriesView,
    reply: AppendEntriesReply,
)
    requires
        node.wf(),
    ensures
        cursors_kept(node, node.append_answered(from, request, reply)),
{
    lemma_append_answered_wf(node, from, request, reply);
    if reply.term <= node.current_term && node.awaits_reply(from, request) && reply.success {
        let p = node.peers.index_of(from);
        let matched = request.prev_log_index + request.entries.len();
        if reply.term == node.current_term && matched <= node.log.len() {
            let recorded = NodeView {
                role: RoleView::Leader {
                    next_index: node.role->next_index.update(p, (matched + 1) as u64),
                    match_index: node.role->match_index.update(p, matched as u64),
                },
                ..node
            };
            assert(recorded.wf());
            lemma_commit_advanced(recorded);
        }
    }
}

/// A client's command lowers neither cursor.
proof fn lemma_submitted_cursors(node: NodeView, command: CommandView)
    requires
        node.wf(),
    ensures
        cursors_kept(node, node.submitted(command)),
{
    lemma_submitted_wf(node, command);
    if node.takes_commands() {
        let entry = EntryView {
            term: node.current_term,
            index: (node.log.len() + 1) as u64,
            command,
        };
        let extended = NodeView { log: node.log.push(entry), ..node };
        assert(extended.wf());
        lemma_commit_advanced(extended);
    }
}

/// A leader never overwrites or deletes an entry of its own log: whatever
/// rule applies to a node that leads before and after it, its old log is a
/// prefix of its new one.
pub proof fn lemma_leader_append_only(node: NodeView)
    requires
        node.wf(),
    ensures
        leader_log_kept(node, node.timed_out()),
        leader_log_kept(node, node.applied()),
        forall|request: RequestVoteRequest| leader_log_kept(node, #[trigger] node.voted(request)),
        forall|from: u64, reply: RequestVoteReply|
            leader_log_kept(node, #[trigger] node.vote_counted(from, reply)),
        forall|request: AppendEntriesView| leader_log_kept(node, #[trigger] node.appended(request)),
        forall|from: u64, request: AppendEntriesView, reply: AppendEntriesReply|
            leader_log_kept(node, #[trigger] node.append_answered(from, request, reply)),
        forall|command: CommandView| leader_log_kept(node, #[trigger] node.submitted(command)),
{
}

/// Where the node leads before and after, its old log is a prefix of the new.
pub open spec fn leader_log_kept(before: NodeView, after: NodeView) -> bool {
    before.role is Leader && after.role is Leader ==> is_prefix(before.log, after.log)
}

/// What was committed stays: the first `commit_index` entries of the log
/// are the same after the step.
pub open spec fn committed_kept(before: NodeView, after: NodeView) -> bool {
    forall|i: int| 0 <= i < before.commit_index ==> after.log[i] == before.log[i]
}

/// No rule changes or removes an entry at or below a node's commit index, so
/// a running node never applies two different entries at one index.
pub proof fn lemma_committed_entries_stay(node: NodeView)
    requires
        node.wf(),
    ensures
        committed_kept(node, node.timed_out()),
        committed_kept(node, node.restarted()),
        committed_kept(node, node.applied()),
        forall|request: RequestVoteRequest| committed_kept(node, #[trigger] node.voted(request)),
        forall|from: u64, reply: RequestVoteReply|
            committed_kept(node, #[trigger] node.vote_counted(from, reply)),
        forall|request: AppendEntriesView| committed_kept(node, #[trigger] node.appended(request)),
        forall|from: u64, request: AppendEntriesView, reply: AppendEntriesReply|
            committed_kept(node, #[trigger] node.append_answered(from, request, reply)),
        forall|command: CommandView| committed_kept(node, #[trigger] node.submitted(command)),
{
    assert forall|request: AppendEntriesView| committed_kept(
        node,
        #[trigger] node.appended(request),
    ) by {
        if node.accepts(request) {
            lemma_merged(node.log, request.prev_log_index as int, request.entries);
        }
    }
}

impl NodeView {
    /// The entry at index `n` could be committed by this leader if its
    /// commit index were `from`: `n` is beyond `from`, the entry is of the
    /// leader's own term, and a quorum holds it.
    pub open spec fn committable_from(self, from: int, n: int) -> bool {
        &&& self.role is Leader
        &&& 0 <= from < n <= self.log.len()
        &&& self.log[n - 1].term == self.current_term
        &&& self.is_quorum(count_reaching(self.role->match_index, n) + 1)
    }
}

/// Where a node that leads after a step has a higher commit index than
/// before, the new index was committable by count.
pub open spec fn raised_by_count(before: NodeView, after: NodeView) -> bool {
    after.role is Leader && after.commit_index > before.commit_index ==> after.committable_from(
        before.commit_index as int,
        after.commit_index as int,
    )
}

/// A leader raises its commit index only to an index that is committable:
/// of its own term and held by a quorum.
pub proof fn lemma_leader_commits_by_count(node: NodeView)
    requires
        node.wf(),
    ensures
        raised_by_count(node, node.timed_out()),
        raised_by_count(node, node.restarted()),
        raised_by_count(node, node.applied()),
        forall|request: RequestVoteRequest| raised_by_count(node, #[trigger] node.voted(request)),
        forall|from: u64, reply: RequestVoteReply|
            raised_by_count(node, #[trigger] node.vote_counted(from, reply)),
        forall|request: AppendEntriesView| raised_by_count(node, #[trigger] node.appended(request)),
        forall|from: u64, request: AppendEntriesView, reply: AppendEntriesReply|
            raised_by_count(node, #[trigger] node.append_answered(from, request, reply)),
        forall|command: CommandView| raised_by_count(node, #[trigger] node.submitted(command)),
{
    assert forall|from: u64, request: AppendEntriesView, reply: AppendEntriesReply|
        raised_by_count(node, #[trigger] node.append_answered(from, request, reply)) by {
        if reply.term <= node.current_term && node.awaits_reply(from, request) && reply.success {
            let p = node.peers.index_of(from);
            let matched = request.prev_log_index + request.entries.len();
            if reply.term == node.current_term && matched <= node.log.len() {
                let recorded = NodeView {
                    role: RoleView::Leader {
                        next_index: node.role->next_index.update(p, (matched + 1) as u64),
                        match_index: node.role->match_index.update(p, matched as u64),
                    },
                    ..node
                };
                lemma_highest_committable(recorded, recorded.log.len() as int);
            }
        }
    }
    assert forall|command: CommandView| raised_by_count(node, #[trigger] node.submitted(command)) by {
        if node.takes_commands() {
            let entry = EntryView {
                term: node.current_term,
                index: (node.log.len() + 1) as u64,
                command,
            };
            let extended = NodeView { log: node.log.push(entry), ..node };
            lemma_highest_committable(extended, extended.log.len() as int);
        }
    }
}

} // verus!
