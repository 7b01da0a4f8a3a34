//! A node of the cluster: its state, and the handlers that apply the rules of
//! `model` to it.
//!
//! A node does no I/O. The program that runs it reports what happened (a
//! timer fired, a message or an answer arrived, a client submitted a
//! command) by calling the matching method, sends what the method returns,
//! and persists `persistent_state` before any answer leaves the node.

use crate::command::{ApplyOutcome, Command, StoreView};
use crate::kv::{Error, Store};
use crate::log::{
    agrees, entries_view, first_conflict, indexed_from, merged, outcome_at, outcomes_upto,
    store_at, LogEntry, LogView,
};
use crate::message::{
    AppendEntriesReply, AppendEntriesRequest, RequestVoteReply, RequestVoteRequest,
};
use crate::model::{
    count_reaching, cursors_kept, lemma_cursors_never_fall, NodeView, NotLeader, Progress,
    RoleView, Ticket,
};
use vstd::prelude::*;

verus! {

/// The role that a node plays.
#[derive(Clone, Copy, Debug, PartialEq, Eq, Structural)]
pub enum State {
    Follower,
    Candidate,
    Leader,
}

impl Default for State {
    /// A node starts as a follower.
    fn default() -> (state: State)
        ensures
            state == State::Follower,
    {
        State::Follower
    }
}

impl State {
    /// The lower-case name of the role.
    pub fn name(&self) -> (name: &'static str)
        ensures
            name@ == match self {
                State::Follower => "follower"@,
                State::Candidate => "candidate"@,
                State::Leader => "leader"@,
            },
    {
        match self {
            State::Follower => "follower",
            State::Candidate => "candidate",
            State::Leader => "leader",
        }
    }
}

/// Why a node could not be set up.
#[derive(Clone, Copy, Debug, PartialEq, Eq, Structural)]
pub enum ConfigError {
    /// The node's own id is among its peers.
    SelfAmongPeers,
    /// A peer is listed twice.
    DuplicatePeer,
    /// A stored log entry does not carry the index of its slot, or the log is
    /// too long for its indices to fit in 64 bits.
    CorruptLog,
}

/// What is wrong with the configuration that a node is to start from, if
/// anything: the first that applies of the node's id among its peers, a peer
/// listed twice, and a log that no node can hold.
pub open spec fn config_fault(id: u64, peers: Seq<u64>, log: LogView) -> Option<ConfigError> {
    if peers.contains(id) {
        Some(ConfigError::SelfAmongPeers)
    } else if !peers.no_duplicates() {
        Some(ConfigError::DuplicatePeer)
    } else if !NodeView::valid_log(log) {
        Some(ConfigError::CorruptLog)
    } else {
        None
    }
}

/// What a node must have written to durable storage before it answers a
/// message, and what it starts from after a restart.
#[derive(Debug, PartialEq, Eq)]
pub struct PersistentState {
    pub current_term: u64,
    pub voted_for: Option<u64>,
    pub log: Vec<LogEntry>,
}

/// The role of a node together with the bookkeeping of that role.
enum Role {
    Follower,
    Candidate { votes: Vec<u64> },
    Leader { next_index: Vec<u64>, match_index: Vec<u64> },
}

impl View for Role {
    type V = RoleView;

    closed spec fn view(&self) -> RoleView {
        match self {
            Role::Follower => RoleView::Follower,
            Role::Candidate { votes } => RoleView::Candidate { votes: votes@ },
            Role::Leader { next_index, match_index } => RoleView::Leader {
                next_index: next_index@,
                match_index: match_index@,
            },
        }
    }
}

/// The state of one node: what it persists, its role, its commit and apply
/// cursors, and the key-value store that it applies committed entries to.
pub struct RaftState {
    id: u64,
    peers: Vec<u64>,
    current_term: u64,
    voted_for: Option<u64>,
    log: Vec<LogEntry>,
    role: Role,
    commit_index: u64,
    last_applied: u64,
    store: Store,
    outcomes: Vec<ApplyOutcome>,
}

impl View for RaftState {
    type V = NodeView;

    closed spec fn view(&self) -> NodeView {
        NodeView {
            id: self.id,
            peers: self.peers@,
            current_term: self.current_term,
            voted_for: self.voted_for,
            log: entries_view(self.log@),
            role: self.role@,
            commit_index: self.commit_index,
            last_applied: self.last_applied,
        }
    }
}

/// Whether `x` occurs in `v`.
fn contains(v: &Vec<u64>, x: u64) -> (found: bool)
    ensures
        found == v@.contains(x),
{
    position(v, x).is_some()
}

/// The position of `x` in `v`, if it occurs there.
fn position(v: &Vec<u64>, x: u64) -> (found: Option<usize>)
    ensures
        match found {
            Some(i) => i < v.len() && v[i as int] == x,
            None => !v@.contains(x),
        },
{
    let mut i: usize = 0;
    while i < v.len()
        invariant
            i <= v.len(),
            forall|j: int| 0 <= j < i ==> v[j] != x,
        decreases v.len() - i,
    {
        if v[i] == x {
            return Some(i);
        }
        i += 1;
    }
    None
}

/// Whether no value occurs twice in `v`.
fn distinct(v: &Vec<u64>) -> (yes: bool)
    ensures
        yes == v@.no_duplicates(),
{
    let mut i: usize = 0;
    while i < v.len()
        invariant
            i <= v.len(),
            forall|a: int, b: int| 0 <= a < b < v.len() && b < i ==> v[a] != v[b],
        decreases v.len() - i,
    {
        let mut j: usize = 0;
        while j < i
            invariant
                j <= i < v.len(),
                forall|a: int| 0 <= a < j ==> v[a] != v[i as int],
            decreases i - j,
        {
            if v[j] == v[i] {
                return false;
            }
            j += 1;
        }
        i += 1;
    }
    true
}

/// A vector of `n` copies of `value`.
fn filled(n: usize, value: u64) -> (v: Vec<u64>)
    ensures
        v@ == Seq::new(n as nat, |p: int| value),
{
    let mut v: Vec<u64> = Vec::new();
    while v.len() < n
        invariant
            v.len() <= n,
            forall|p: int| 0 <= p < v.len() ==> v[p] == value,
        decreases n - v.len(),
    {
        v.push(value);
    }
    assert(v@ =~= Seq::new(n as nat, |p: int| value));
    v
}

/// Whether every entry of `log` carries the index of its slot and the index
/// after the last fits in 64 bits.
fn log_is_valid(log: &Vec<LogEntry>) -> (yes: bool)
    ensures
        yes == NodeView::valid_log(entries_view(log@)),
{
    if log.len() as u64 == u64::MAX {
        return false;
    }
    let mut i: usize = 0;
    while i < log.len()
        invariant
            i <= log.len() < u64::MAX,
            indexed_from(entries_view(log@).take(i as int), 0),
        decreases log.len() - i,
    {
        if log[i].index != (i as u64) + 1 {
            assert(entries_view(log@)[i as int].index != i + 1);
            return false;
        }
        assert forall|k: int| 0 <= k < i + 1 implies (#[trigger] entries_view(log@).take(
            i + 1,
        )[k]).index == k + 1 by {
            if k < i {
                assert(entries_view(log@).take(i as int)[k] == entries_view(log@)[k]);
            }
        }
        i += 1;
    }
    assert(entries_view(log@).take(log.len() as int) =~= entries_view(log@));
    true
}

/// A copy of the entries of `log` from position `from` on.
fn copy_from(log: &Vec<LogEntry>, from: usize) -> (copy: Vec<LogEntry>)
    requires
        from <= log.len(),
    ensures
        entries_view(copy@) == entries_view(log@).subrange(from as int, log.len() as int),
{
    let mut copy: Vec<LogEntry> = Vec::new();
    let mut i: usize = from;
    while i < log.len()
        invariant
            from <= i <= log.len(),
            copy.len() == i - from,
            forall|k: int| 0 <= k < copy.len() ==> copy[k]@ == log[from + k]@,
        decreases log.len() - i,
    {
        copy.push(log[i].clone());
        i += 1;
    }
    assert(entries_view(copy@) =~= entries_view(log@).subrange(from as int, log.len() as int));
    copy
}

/// Whether every entry of `entries` carries the index of the slot it goes
/// to, the first of them to the slot after `prev`.
fn entries_indexed_from(entries: &Vec<LogEntry>, prev: u64) -> (yes: bool)
    requires
        prev + entries.len() < u64::MAX,
    ensures
        yes == indexed_from(entries_view(entries@), prev as int),
{
    let mut k: usize = 0;
    while k < entries.len()
        invariant
            k <= entries.len(),
            prev + entries.len() < u64::MAX,
            forall|j: int| 0 <= j < k ==> (#[trigger] entries_view(entries@)[j]).index == prev + j + 1,
        decreases entries.len() - k,
    {
        if entries[k].index != prev + (k as u64) + 1 {
            assert(entries_view(entries@)[k as int].index != prev + k + 1);
            return false;
        }
        k += 1;
    }
    true
}

/// The position of the first of `entries`, offered for the slots after
/// `prev`, that `log` does not already hold with the same term.
fn find_conflict(log: &Vec<LogEntry>, prev: u64, entries: &Vec<LogEntry>) -> (k: usize)
    requires
        prev <= log.len(),
    ensures
        k == first_conflict(entries_view(log@), prev as int, entries_view(entries@), 0),
        k <= entries.len(),
        prev + k <= log.len(),
{
    let ghost l = entries_view(log@);
    let ghost e = entries_view(entries@);
    let base = prev as usize;
    let mut k: usize = 0;
    while k < entries.len() && k < log.len() - base && log[base + k].term == entries[k].term
        invariant
            k <= entries.len(),
            base == prev,
            base + k <= log.len(),
            l == entries_view(log@),
            e == entries_view(entries@),
            first_conflict(l, prev as int, e, 0) == first_conflict(l, prev as int, e, k as int),
        decreases entries.len() - k,
    {
        assert(agrees(l, prev as int, e, k as int));
        k += 1;
    }
    proof {
        if k < entries.len() {
            assert(!agrees(l, prev as int, e, k as int));
        }
    }
    k
}

/// Cuts `log` down to its first `at` entries and continues it with copies of
/// `entries` from position `from` on.
fn splice(log: &mut Vec<LogEntry>, at: usize, entries: &Vec<LogEntry>, from: usize)
    requires
        at <= old(log).len(),
        from <= entries.len(),
    ensures
        entries_view(final(log)@) == entries_view(old(log)@).subrange(0, at as int) + entries_view(
            entries@,
        ).subrange(from as int, entries.len() as int),
{
    log.truncate(at);
    let mut i: usize = from;
    while i < entries.len()
        invariant
            from <= i <= entries.len(),
            at <= old(log).len(),
            log.len() == at + (i - from),
            forall|j: int| 0 <= j < at ==> log[j] == old(log)[j],
            forall|j: int| at <= j < log.len() ==> (#[trigger] log[j])@ == entries[from + j - at]@,
        decreases entries.len() - i,
    {
        log.push(entries[i].clone());
        i += 1;
    }
    assert(entries_view(log@) =~= entries_view(old(log)@).subrange(0, at as int) + entries_view(
        entries@,
    ).subrange(from as int, entries.len() as int));
}

/// How many values of `match_index` are at least `n`.
fn count_holding(match_index: &Vec<u64>, n: u64) -> (count: usize)
    ensures
        count == count_reaching(match_index@, n as int),
        count <= match_index.len(),
{
    let mut count: usize = 0;
    let mut p: usize = 0;
    while p < match_index.len()
        invariant
            p <= match_index.len(),
            count <= p,
            count == count_reaching(match_index@.take(p as int), n as int),
        decreases match_index.len() - p,
    {
        assert(match_index@.take(p + 1).drop_last() =~= match_index@.take(p as int));
        if match_index[p] >= n {
            count += 1;
        }
        p += 1;
    }
    assert(match_index@.take(match_index.len() as int) =~= match_index@);
    count
}

/// Applies the entries of `log` at the 1-based indices `from + 1 ..= to` to
/// `store`, in order, and records the store's answers.
fn apply_range(
    store: &mut Store,
    outcomes: &mut Vec<ApplyOutcome>,
    log: &Vec<LogEntry>,
    from: u64,
    to: u64,
) -> (fresh: Vec<ApplyOutcome>)
    requires
        from <= to <= log.len(),
        old(store)@ == store_at(entries_view(log@), from as int),
        old(outcomes)@ == outcomes_upto(entries_view(log@), from as int),
    ensures
        final(store)@ == store_at(entries_view(log@), to as int),
        final(outcomes)@ == outcomes_upto(entries_view(log@), to as int),
        fresh@ == outcomes_upto(entries_view(log@), to as int).subrange(from as int, to as int),
{
    let ghost l = entries_view(log@);
    let mut fresh: Vec<ApplyOutcome> = Vec::new();
    let mut at: u64 = from;
    while at < to
        invariant
            from <= at <= to <= log.len(),
            l == entries_view(log@),
            store@ == store_at(l, at as int),
            outcomes@ == outcomes_upto(l, at as int),
            fresh@ == outcomes_upto(l, at as int).subrange(from as int, at as int),
        decreases to - at,
    {
        let outcome = store.apply(&log[at as usize].command);
        assert(outcome == outcome_at(l, at + 1));
        outcomes.push(outcome);
        fresh.push(outcome);
        at += 1;
        assert(outcomes@ =~= outcomes_upto(l, at as int));
        assert(fresh@ =~= outcomes_upto(l, at as int).subrange(from as int, at as int));
    }
    fresh
}

impl RaftState {
    /// The contents of the node's key-value store.
    pub closed spec fn store(&self) -> StoreView {
        self.store@
    }

    /// The answers that the store gave to the entries applied so far.
    pub closed spec fn outcomes(&self) -> Seq<ApplyOutcome> {
        self.outcomes@
    }

    /// The invariant of a node: its state is well formed, and its store and
    /// the recorded answers are those of applying the first `last_applied`
    /// entries of its log, in order, to an empty store.
    pub open spec fn wf(&self) -> bool {
        &&& self@.wf()
        &&& self.store() == store_at(self@.log, self@.last_applied as int)
        &&& self.outcomes() == outcomes_upto(self@.log, self@.last_applied as int)
    }

    /// A node that starts with nothing stored.
    pub fn new(id: u64, peers: Vec<u64>) -> (result: Result<RaftState, ConfigError>)
        ensures
            match result {
                Ok(node) => {
                    &&& config_fault(id, peers@, Seq::empty()) is None
                    &&& node.wf()
                    &&& node@ == NodeView::initial(id, peers@)
                },
                Err(e) => config_fault(id, peers@, Seq::empty()) == Some(e),
            },
    {
        let saved = PersistentState { current_term: 0, voted_for: None, log: Vec::new() };
        assert(entries_view(saved.log@) =~= Seq::empty());
        RaftState::restore(id, peers, saved)
    }

    /// A node that starts from what it had persisted before it stopped. It
    /// starts as a follower with nothing committed or applied.
    ///
    /// The peers must be distinct and not include `id`, and every stored
    /// entry must carry the index of its slot; the first of these that fails
    /// decides the error.
    pub fn restore(id: u64, peers: Vec<u64>, saved: PersistentState) -> (result: Result<
        RaftState,
        ConfigError,
    >)
        ensures
            match result {
                Ok(node) => {
                    &&& config_fault(id, peers@, entries_view(saved.log@)) is None
                    &&& node.wf()
                    &&& node@ == NodeView::restored(
                        id,
                        peers@,
                        saved.current_term,
                        saved.voted_for,
                        entries_view(saved.log@),
                    )
                },
                Err(e) => config_fault(id, peers@, entries_view(saved.log@)) == Some(e),
            },
    {
        if contains(&peers, id) {
            return Err(ConfigError::SelfAmongPeers);
        }
        if !distinct(&peers) {
            return Err(ConfigError::DuplicatePeer);
        }
        if !log_is_valid(&saved.log) {
            return Err(ConfigError::CorruptLog);
        }
        let node = RaftState {
            id,
            peers,
            current_term: saved.current_term,
            voted_for: saved.voted_for,
            log: saved.log,
            role: Role::Follower,
            commit_index: 0,
            last_applied: 0,
            store: Store::new(),
            outcomes: Vec::new(),
        };
        assert(node.outcomes() =~= outcomes_upto(node@.log, 0));
        Ok(node)
    }

    /// A copy of what must be on durable storage before the node answers a
    /// message or counts its own log toward a quorum.
    pub fn persistent_state(&self) -> (saved: PersistentState)
        ensures
            saved.current_term == self@.current_term,
            saved.voted_for == self@.voted_for,
            entries_view(saved.log@) == self@.log,
    {
        let log = copy_from(&self.log, 0);
        assert(entries_view(self.log@).subrange(0, self.log.len() as int) =~= entries_view(
            self.log@,
        ));
        PersistentState { current_term: self.current_term, voted_for: self.voted_for, log }
    }

    /// The node's own id.
    pub fn id(&self) -> (id: u64)
        ensures
            id == self@.id,
    {
        self.id
    }

    /// The ids of the other nodes of the cluster.
    pub fn peers(&self) -> (peers: &Vec<u64>)
        ensures
            peers@ == self@.peers,
    {
        &self.peers
    }

    /// The latest term that the node has seen.
    pub fn current_term(&self) -> (term: u64)
        ensures
            term == self@.current_term,
    {
        self.current_term
    }

    /// The candidate that the node voted for in its current term, if any.
    pub fn voted_for(&self) -> (vote: Option<u64>)
        ensures
            vote == self@.voted_for,
    {
        self.voted_for
    }

    /// The role that the node plays.
    pub fn state(&self) -> (state: State)
        ensures
            state == match self@.role {
                RoleView::Follower => State::Follower,
                RoleView::Candidate { .. } => State::Candidate,
                RoleView::Leader { .. } => State::Leader,
            },
    {
        match &self.role {
            Role::Follower => State::Follower,
            Role::Candidate { .. } => State::Candidate,
            Role::Leader { .. } => State::Leader,
        }
    }

    /// The highest index known to be committed.
    pub fn commit_index(&self) -> (index: u64)
        ensures
            index == self@.commit_index,
    {
        self.commit_index
    }

    /// The highest index applied to the store.
    pub fn last_applied(&self) -> (index: u64)
        ensures
            index == self@.last_applied,
    {
        self.last_applied
    }

    /// The index of the last log entry; 0 for an empty log.
    pub fn last_log_index(&self) -> (index: u64)
        ensures
            index == self@.log.len(),
    {
        self.log.len() as u64
    }

    /// The term of the last log entry; 0 for an empty log.
    pub fn last_log_term(&self) -> (term: u64)
        ensures
            term == crate::log::last_term(self@.log),
    {
        let n = self.log.len();
        if n == 0 {
            0
        } else {
            self.log[n - 1].term
        }
    }

    /// The log entry at 1-based `index`, if the log has one there.
    pub fn entry(&self, index: u64) -> (entry: Option<&LogEntry>)
        ensures
            match entry {
                Some(e) => 1 <= index <= self@.log.len() && e@ == self@.log[index - 1],
                None => !(1 <= index <= self@.log.len()),
            },
    {
        if 1 <= index && index <= self.log.len() as u64 {
            Some(&self.log[(index - 1) as usize])
        } else {
            None
        }
    }

    /// The number of votes that a candidate has counted in its term, its own
    /// included; `None` on a node that is no candidate.
    pub fn votes_counted(&self) -> (count: Option<usize>)
        ensures
            count == match self@.role {
                RoleView::Candidate { votes } => Some(votes.len() as usize),
                _ => None,
            },
    {
        match &self.role {
            Role::Candidate { votes } => Some(votes.len()),
            _ => None,
        }
    }

    /// The index of the next entry that a leader will send to `peer`; `None`
    /// unless the node leads and `peer` is one of its peers.
    pub fn next_index(&self, peer: u64) -> (index: Option<u64>)
        requires
            self.wf(),
        ensures
            index == if self@.role is Leader && self@.peers.contains(peer) {
                Some(self@.role->next_index[self@.peers.index_of(peer)])
            } else {
                None
            },
    {
        match &self.role {
            Role::Leader { next_index, match_index } => match position(&self.peers, peer) {
                Some(p) => {
                    assert(self@.peers.index_of(peer) == p);
                    Some(next_index[p])
                },
                None => None,
            },
            _ => None,
        }
    }

    /// The highest index that a leader knows `peer` to hold; `None` unless
    /// the node leads and `peer` is one of its peers.
    pub fn match_index(&self, peer: u64) -> (index: Option<u64>)
        requires
            self.wf(),
        ensures
            index == if self@.role is Leader && self@.peers.contains(peer) {
                Some(self@.role->match_index[self@.peers.index_of(peer)])
            } else {
                None
            },
    {
        match &self.role {
            Role::Leader { next_index, match_index } => match position(&self.peers, peer) {
                Some(p) => {
                    assert(self@.peers.index_of(peer) == p);
                    Some(match_index[p])
                },
                None => None,
            },
            _ => None,
        }
    }

    /// The value that the node's store holds under `key`: the value after
    /// the entries applied so far, or `DoesNotExist`.
    pub fn get<'a>(&'a self, key: &str) -> (result: Result<&'a str, Error>)
        ensures
            match result {
                Ok(value) => self.store().contains_key(key@) && value@ == self.store()[key@],
                Err(e) => !self.store().contains_key(key@) && e == Error::DoesNotExist,
            },
    {
        self.store.get(key)
    }
}

impl RaftState {
    /// Whether the node leads.
    fn is_leader(&self) -> (yes: bool)
        ensures
            yes == (self@.role is Leader),
    {
        match &self.role {
            Role::Leader { .. } => true,
            _ => false,
        }
    }

    /// The node meets the higher term `term` and steps down.
    fn step_down(&mut self, term: u64)
        ensures
            final(self)@ == old(self)@.stepped_down(term),
            final(self).store() == old(self).store(),
            final(self).outcomes() == old(self).outcomes(),
    {
        self.current_term = term;
        self.voted_for = None;
        self.role = Role::Follower;
    }

    /// A candidate that holds the votes of a quorum becomes leader.
    fn promote_if_elected(&mut self)
        requires
            old(self)@.log.len() < u64::MAX,
        ensures
            final(self)@ == old(self)@.promoted_if_elected(),
            final(self).store() == old(self).store(),
            final(self).outcomes() == old(self).outcomes(),
    {
        let elected = match &self.role {
            Role::Candidate { votes } => votes.len() > self.peers.len() / 2 + self.peers.len() % 2,
            _ => false,
        };
        if elected {
            let n = self.peers.len();
            let next = self.log.len() as u64 + 1;
            self.role = Role::Leader { next_index: filled(n, next), match_index: filled(n, 0) };
            assert(self@.role->next_index =~= old(self)@.promoted().role->next_index);
            assert(self@.role->match_index =~= old(self)@.promoted().role->match_index);
        }
    }

    /// The election timer fired.
    ///
    /// A node that does not lead starts an election: it moves to the next
    /// term, votes for itself, and becomes a candidate, or at once the leader
    /// where it alone is a quorum. The call for votes that it returns goes
    /// to every peer. A leader, whose timer is off, and a node in the last
    /// term that 64 bits hold stay as they are and return `None`.
    pub fn election_timeout(&mut self) -> (request: Option<RequestVoteRequest>)
        requires
            old(self).wf(),
        ensures
            final(self).wf(),
            final(self)@ == old(self)@.timed_out(),
            cursors_kept(old(self)@, final(self)@),
            final(self).store() == old(self).store(),
            request == if old(self)@.can_campaign() {
                Some(final(self)@.vote_request())
            } else {
                None
            },
    {
        proof {
            crate::model::lemma_timed_out_wf(self@);
            lemma_cursors_never_fall(self@);
        }
        if self.is_leader() || self.current_term == u64::MAX {
            return None;
        }
        self.current_term = self.current_term + 1;
        self.voted_for = Some(self.id);
        let mut votes: Vec<u64> = Vec::new();
        votes.push(self.id);
        assert(votes@ =~= seq![self.id]);
        self.role = Role::Candidate { votes };
        self.promote_if_elected();
        Some(
            RequestVoteRequest {
                term: self.current_term,
                candidate_id: self.id,
                last_log_index: self.last_log_index(),
                last_log_term: self.last_log_term(),
            },
        )
    }

    /// A call for a vote arrived.
    ///
    /// A call from an older term is refused with the node's term. A higher
    /// term makes the node step down first. The vote is granted when the node
    /// has not voted for another candidate in this term and the candidate's
    /// log is at least as up to date as its own. The caller resets the
    /// election timer when the vote was granted.
    pub fn request_vote(&mut self, request: &RequestVoteRequest) -> (reply: RequestVoteReply)
        requires
            old(self).wf(),
        ensures
            final(self).wf(),
            final(self)@ == old(self)@.voted(*request),
            cursors_kept(old(self)@, final(self)@),
            final(self).store() == old(self).store(),
            reply == old(self)@.vote_reply(*request),
    {
        proof {
            crate::model::lemma_rules_keep_wf(self@);
            lemma_cursors_never_fall(self@);
        }
        if request.term < self.current_term {
            return RequestVoteReply { term: self.current_term, vote_granted: false };
        }
        let last_term = self.last_log_term();
        let up_to_date = request.last_log_term > last_term || (request.last_log_term == last_term
            && request.last_log_index >= self.last_log_index());
        if request.term > self.current_term {
            self.step_down(request.term);
        }
        let free = match self.voted_for {
            None => true,
            Some(candidate) => candidate == request.candidate_id,
        };
        let vote_granted = free && up_to_date;
        if vote_granted {
            self.voted_for = Some(request.candidate_id);
        }
        RequestVoteReply { term: self.current_term, vote_granted }
    }

    /// The answer of node `from` to this node's call for votes arrived.
    ///
    /// A higher term in the answer makes the node step down. A vote granted
    /// in the node's current term by a peer not counted before is counted,
    /// and with the votes of a quorum the candidate becomes leader. Any other
    /// answer, such as one from an abandoned term, is dropped. Returns whether
    /// the node became leader by this answer, in which case the caller starts
    /// the heartbeat at once.
    pub fn request_vote_reply(&mut self, from: u64, reply: &RequestVoteReply) -> (elected: bool)
        requires
            old(self).wf(),
        ensures
            final(self).wf(),
            final(self)@ == old(self)@.vote_counted(from, *reply),
            cursors_kept(old(self)@, final(self)@),
            final(self).store() == old(self).store(),
            elected == (final(self)@.role is Leader && !(old(self)@.role is Leader)),
    {
        proof {
            crate::model::lemma_vote_counted_wf(self@, from, *reply);
            lemma_cursors_never_fall(self@);
        }
        if reply.term > self.current_term {
            self.step_down(reply.term);
            return false;
        }
        if reply.term != self.current_term || !reply.vote_granted || !contains(&self.peers, from) {
            return false;
        }
        let counted = match &mut self.role {
            Role::Candidate { votes } => {
                if contains(votes, from) {
                    false
                } else {
                    votes.push(from);
                    true
                }
            },
            _ => false,
        };
        if counted {
            self.promote_if_elected();
            self.is_leader()
        } else {
            false
        }
    }
}


impl RaftState {
    /// Whether the node will take the sender of `request` for the leader of
    /// the request's term: the call is not from an older term, and the node
    /// does not itself lead that term. The caller resets the election timer
    /// for a call that passes, whether or not its entries are stored.
    pub fn recognizes_leader(&self, request: &AppendEntriesRequest) -> (yes: bool)
        ensures
            yes == self@.heeds(request@),
    {
        request.term >= self.current_term && !(self.is_leader() && request.term
            == self.current_term)
    }

    /// A call to replicate entries arrived.
    ///
    /// A call from an older term is refused with the node's term, and so is
    /// one that reaches the leader of the call's own term. Otherwise the node
    /// follows the sender: it adopts a higher term and becomes a follower,
    /// for which the caller resets the election timer. The entries are then
    /// refused when the log has no entry of term `prev_log_term` at
    /// `prev_log_index`, when they are not indexed by the slots after it, or
    /// when storing them would replace a committed entry. Otherwise the log
    /// is cut at the first slot whose entry has another term than the one
    /// offered for it, the offered entries are stored from there on, and the
    /// commit index rises to the smaller of the leader's commit index and the
    /// index of the last offered entry, where that is higher.
    pub fn append_entries(&mut self, request: &AppendEntriesRequest) -> (reply: AppendEntriesReply)
        requires
            old(self).wf(),
        ensures
            final(self).wf(),
            final(self)@ == old(self)@.appended(request@),
            cursors_kept(old(self)@, final(self)@),
            final(self).store() == old(self).store(),
            reply == old(self)@.append_reply(request@),
    {
        proof {
            crate::model::lemma_appended_wf(self@, request@);
            lemma_cursors_never_fall(self@);
        }
        if request.term < self.current_term || (self.is_leader() && request.term
            == self.current_term) {
            return AppendEntriesReply { term: self.current_term, success: false };
        }
        if request.term > self.current_term {
            self.step_down(request.term);
        }
        self.role = Role::Follower;
        assert(self@ == old(self)@.following(request@));
        let refused = AppendEntriesReply { term: self.current_term, success: false };
        let prev = request.prev_log_index;
        let log_len = self.log.len() as u64;
        if prev > log_len {
            return refused;
        }
        if prev != 0 && self.log[(prev - 1) as usize].term != request.prev_log_term {
            return refused;
        }
        let n = request.entries.len();
        if n as u64 >= u64::MAX - prev {
            return refused;
        }
        if !entries_indexed_from(&request.entries, prev) {
            return refused;
        }
        let k = find_conflict(&self.log, prev, &request.entries);
        if k < n {
            if prev + (k as u64) < self.commit_index {
                return refused;
            }
            splice(&mut self.log, (prev as usize) + k, &request.entries, k);
        }
        proof {
            crate::model::lemma_merged(old(self)@.log, prev as int, request@.entries);
            assert(self@.log == merged(old(self)@.log, prev as int, request@.entries));
            crate::log::lemma_applied_prefix(
                old(self)@.log,
                self@.log,
                self@.last_applied as int,
            );
        }
        let last_new = prev + n as u64;
        let known = if request.leader_commit <= last_new {
            request.leader_commit
        } else {
            last_new
        };
        if known > self.commit_index {
            self.commit_index = known;
        }
        AppendEntriesReply { term: self.current_term, success: true }
    }

    /// The call to replicate entries that a leader sends to `peer`: all
    /// entries from the peer's next index on, which is a heartbeat when there
    /// are none. `None` unless the node leads and `peer` is one of its peers.
    pub fn append_entries_request(&self, peer: u64) -> (request: Option<AppendEntriesRequest>)
        requires
            self.wf(),
        ensures
            match request {
                Some(r) => self@.append_request(peer) == Some(r@),
                None => self@.append_request(peer) is None,
            },
    {
        match &self.role {
            Role::Leader { next_index, match_index } => {
                match position(&self.peers, peer) {
                    Some(p) => {
                        assert(self@.peers.index_of(peer) == p);
                        let prev = next_index[p] - 1;
                        let prev_log_term = if prev == 0 {
                            0
                        } else {
                            self.log[(prev - 1) as usize].term
                        };
                        Some(
                            AppendEntriesRequest {
                                term: self.current_term,
                                leader_id: self.id,
                                prev_log_index: prev,
                                prev_log_term,
                                entries: copy_from(&self.log, prev as usize),
                                leader_commit: self.commit_index,
                            },
                        )
                    },
                    None => None,
                }
            },
            _ => None,
        }
    }

    /// The highest index that this node can commit as leader, or its commit
    /// index where there is none.
    fn commit_target(&self) -> (target: u64)
        requires
            self@.wf(),
        ensures
            target == self@.highest_committable(self@.log.len() as int),
    {
        match &self.role {
            Role::Leader { next_index, match_index } => {
                let threshold = self.peers.len() / 2 + self.peers.len() % 2;
                let mut n: u64 = self.log.len() as u64;
                while n > self.commit_index
                    invariant
                        self@.wf(),
                        self.role == (Role::Leader { next_index: *next_index, match_index: *match_index }),
                        threshold == self.peers.len() / 2 + self.peers.len() % 2,
                        self.commit_index <= n <= self.log.len(),
                        self@.highest_committable(self@.log.len() as int)
                            == self@.highest_committable(n as int),
                    decreases n,
                {
                    if self.log[(n - 1) as usize].term == self.current_term && count_holding(
                        match_index,
                        n,
                    ) >= threshold {
                        assert(self@.committable(n as int));
                        return n;
                    }
                    assert(!self@.committable(n as int));
                    n -= 1;
                }
                n
            },
            _ => {
                proof {
                    crate::model::lemma_not_leader_nothing_committable(
                        self@,
                        self@.log.len() as int,
                    );
                }
                self.commit_index
            },
        }
    }

    /// Raises a leader's commit index to the highest index whose entry is of
    /// the leader's own term and held by a quorum.
    fn advance_commit_index(&mut self)
        requires
            old(self)@.wf(),
        ensures
            final(self)@ == old(self)@.commit_advanced(),
            final(self).store() == old(self).store(),
            final(self).outcomes() == old(self).outcomes(),
    {
        self.commit_index = self.commit_target();
    }

    /// The answer `reply` of node `from` to the call `request` arrived.
    ///
    /// A higher term in the answer makes the node step down. An answer that
    /// the node no longer awaits, because it does not lead the term of the
    /// request any more, is dropped. On success the peer is recorded as
    /// holding everything up to the last entry of the request, and the commit
    /// index advances where a quorum now holds an entry of this term. On
    /// failure the peer's next index goes back by one for the next try.
    pub fn append_entries_reply(
        &mut self,
        from: u64,
        request: &AppendEntriesRequest,
        reply: &AppendEntriesReply,
    )
        requires
            old(self).wf(),
        ensures
            final(self).wf(),
            final(self)@ == old(self)@.append_answered(from, request@, *reply),
            cursors_kept(old(self)@, final(self)@),
            final(self).store() == old(self).store(),
    {
        proof {
            crate::model::lemma_append_answered_wf(self@, from, request@, *reply);
            lemma_cursors_never_fall(self@);
        }
        if reply.term > self.current_term {
            self.step_down(reply.term);
            return;
        }
        if request.term != self.current_term || request.leader_id != self.id {
            return;
        }
        let p = match position(&self.peers, from) {
            Some(p) => p,
            None => {
                return;
            },
        };
        assert(self@.peers.index_of(from) == p);
        let log_len = self.log.len() as u64;
        let n = request.entries.len() as u64;
        let mut recorded = false;
        match &mut self.role {
            Role::Leader { next_index, match_index } => {
                if !reply.success {
                    let next = next_index[p];
                    next_index.set(p, if next > 1 {
                        next - 1
                    } else {
                        1
                    });
                } else if reply.term == self.current_term && request.prev_log_index <= log_len
                    && n <= log_len - request.prev_log_index {
                    let matched = request.prev_log_index + n;
                    match_index.set(p, matched);
                    next_index.set(p, matched + 1);
                    recorded = true;
                }
            },
            _ => {},
        }
        if recorded {
            self.advance_commit_index();
        }
    }

    /// A client submitted `command`.
    ///
    /// A leader appends it to its log as an entry of its term and returns the
    /// receipt to `poll` with; where the leader alone is a quorum the entry
    /// is committed at once. A node that does not lead, or whose log has no
    /// room for another entry, changes nothing and refuses.
    pub fn submit(&mut self, command: Command) -> (result: Result<Ticket, NotLeader>)
        requires
            old(self).wf(),
        ensures
            final(self).wf(),
            final(self)@ == old(self)@.submitted(command@),
            cursors_kept(old(self)@, final(self)@),
            final(self).store() == old(self).store(),
            result == if old(self)@.takes_commands() {
                Ok::<Ticket, NotLeader>(old(self)@.ticket())
            } else {
                Err::<Ticket, NotLeader>(NotLeader)
            },
    {
        proof {
            crate::model::lemma_submitted_wf(self@, command@);
            lemma_cursors_never_fall(self@);
        }
        if !self.is_leader() || self.log.len() as u64 >= u64::MAX - 1 {
            return Err(NotLeader);
        }
        let ticket = Ticket { index: self.log.len() as u64 + 1, term: self.current_term };
        self.log.push(LogEntry { term: ticket.term, index: ticket.index, command });
        assert(entries_view(self.log@) =~= old(self)@.log.push(
            crate::log::EntryView { term: ticket.term, index: ticket.index, command: command@ },
        ));
        proof {
            crate::log::lemma_applied_prefix(
                old(self)@.log,
                self@.log,
                self@.last_applied as int,
            );
        }
        self.advance_commit_index();
        Ok(ticket)
    }

    /// Applies every committed entry that is not applied yet to the store, in
    /// log order, and returns the store's answers to them. An entry that the
    /// store refuses counts as applied like any other.
    pub fn apply_committed(&mut self) -> (fresh: Vec<ApplyOutcome>)
        requires
            old(self).wf(),
        ensures
            final(self).wf(),
            final(self)@ == old(self)@.applied(),
            cursors_kept(old(self)@, final(self)@),
            final(self).store() == store_at(old(self)@.log, old(self)@.commit_index as int),
            fresh@ == outcomes_upto(old(self)@.log, old(self)@.commit_index as int).subrange(
                old(self)@.last_applied as int,
                old(self)@.commit_index as int,
            ),
    {
        let fresh = apply_range(
            &mut self.store,
            &mut self.outcomes,
            &self.log,
            self.last_applied,
            self.commit_index,
        );
        self.last_applied = self.commit_index;
        fresh
    }

    /// How far the command behind `ticket` has come on this node.
    pub fn poll(&self, ticket: &Ticket) -> (progress: Progress)
        requires
            self.wf(),
        ensures
            progress == self@.progress(*ticket),
    {
        let in_log = 1 <= ticket.index && ticket.index <= self.log.len() as u64;
        let holds = in_log && self.log[(ticket.index - 1) as usize].term == ticket.term;
        if holds && ticket.index <= self.last_applied {
            Progress::Done(self.outcomes[(ticket.index - 1) as usize])
        } else if holds && self.is_leader() && self.current_term == ticket.term {
            Progress::Pending
        } else {
            Progress::NotLeader
        }
    }
}


} // verus!
