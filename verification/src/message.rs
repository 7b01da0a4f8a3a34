//! The two remote procedure calls that nodes exchange, and their replies.

use crate::log::{entries_view, LogEntry, LogView};
use vstd::prelude::*;

verus! {

/// A candidate's call for a vote.
#[derive(Clone, Copy, Debug, PartialEq, Eq, Structural)]
pub struct RequestVoteRequest {
    /// The candidate's term.
    pub term: u64,
    /// The node that asks for the vote.
    pub candidate_id: u64,
    /// The index of the candidate's last log entry.
    pub last_log_index: u64,
    /// The term of the candidate's last log entry.
    pub last_log_term: u64,
}

/// The answer to a call for a vote.
#[derive(Clone, Copy, Debug, PartialEq, Eq, Structural)]
pub struct RequestVoteReply {
    /// The term of the node that answers, for the candidate to update itself.
    pub term: u64,
    /// Whether the candidate received the vote.
    pub vote_granted: bool,
}

/// A leader's call to replicate entries; with no entries, a heartbeat.
#[derive(Debug, PartialEq, Eq)]
pub struct AppendEntriesRequest {
    /// The leader's term.
    pub term: u64,
    /// The node that leads.
    pub leader_id: u64,
    /// The index of the entry just before the new ones.
    pub prev_log_index: u64,
    /// The term of the entry at `prev_log_index`.
    pub prev_log_term: u64,
    /// The entries to store.
    pub entries: Vec<LogEntry>,
    /// The leader's commit index.
    pub leader_commit: u64,
}

/// An `AppendEntriesRequest` as a mathematical value.
pub struct AppendEntriesView {
    pub term: u64,
    pub leader_id: u64,
    pub prev_log_index: u64,
    pub prev_log_term: u64,
    pub entries: LogView,
    pub leader_commit: u64,
}

impl View for AppendEntriesRequest {
    type V = AppendEntriesView;

    open spec fn view(&self) -> AppendEntriesView {
        AppendEntriesView {
            term: self.term,
            leader_id: self.leader_id,
            prev_log_index: self.prev_log_index,
            prev_log_term: self.prev_log_term,
            entries: entries_view(self.entries@),
            leader_commit: self.leader_commit,
        }
    }
}

/// The answer to a call to replicate entries.
#[derive(Clone, Copy, Debug, PartialEq, Eq, Structural)]
pub struct AppendEntriesReply {
    /// The term of the node that answers, for the leader to update itself.
    pub term: u64,
    /// Whether the follower now holds the entries of the call.
    pub success: bool,
}

} // verus!
