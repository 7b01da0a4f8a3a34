use raftkv::command::{ApplyOutcome, Command};
use raftkv::log::LogEntry;
use raftkv::message::{
    AppendEntriesReply, AppendEntriesRequest, RequestVoteReply, RequestVoteRequest,
};
use raftkv::model::{NotLeader, Progress, Ticket};
use raftkv::raft::{ConfigError, PersistentState, RaftState, State};

fn put(key: &str, value: &str) -> Command {
    Command::Insert { key: key.to_string(), value: value.to_string() }
}

fn entry(term: u64, index: u64) -> LogEntry {
    LogEntry { term, index, command: put(&format!("k{index}"), &format!("v{index}")) }
}

fn log_of(terms: &[u64]) -> Vec<LogEntry> {
    terms.iter().enumerate().map(|(i, term)| entry(*term, i as u64 + 1)).collect()
}

fn node(id: u64, peers: Vec<u64>, current_term: u64, terms: &[u64]) -> RaftState {
    let saved = PersistentState { current_term, voted_for: None, log: log_of(terms) };
    RaftState::restore(id, peers, saved).unwrap()
}

fn append(term: u64, prev: u64, prev_term: u64, entries: Vec<LogEntry>, commit: u64) -> AppendEntriesRequest {
    AppendEntriesRequest {
        term,
        leader_id: 9,
        prev_log_index: prev,
        prev_log_term: prev_term,
        entries,
        leader_commit: commit,
    }
}

/// Makes node 1 of a three-node cluster the leader of the term after its own.
fn leader(current_term: u64, terms: &[u64]) -> RaftState {
    let mut n = node(1, vec![2, 3], current_term, terms);
    let request = n.election_timeout().unwrap();
    let granted = RequestVoteReply { term: request.term, vote_granted: true };
    assert!(n.request_vote_reply(2, &granted));
    n
}

#[test]
fn new_node_is_an_empty_follower() {
    let n = RaftState::new(1, vec![2, 3]).unwrap();
    assert_eq!(n.id(), 1);
    assert_eq!(n.peers(), &vec![2, 3]);
    assert_eq!(n.state(), State::Follower);
    assert_eq!(n.current_term(), 0);
    assert_eq!(n.voted_for(), None);
    assert_eq!(n.last_log_index(), 0);
    assert_eq!(n.last_log_term(), 0);
    assert_eq!(n.commit_index(), 0);
    assert_eq!(n.last_applied(), 0);
    assert_eq!(n.entry(0), None);
    assert_eq!(n.entry(1), None);
    assert_eq!(n.votes_counted(), None);
    assert_eq!(n.next_index(2), None);
    assert_eq!(n.match_index(2), None);
}

#[test]
fn new_refuses_bad_membership() {
    assert_eq!(RaftState::new(1, vec![2, 1]).err(), Some(ConfigError::SelfAmongPeers));
    assert_eq!(RaftState::new(1, vec![2, 3, 2]).err(), Some(ConfigError::DuplicatePeer));
    assert_eq!(RaftState::new(1, vec![1, 1]).err(), Some(ConfigError::SelfAmongPeers));
}

#[test]
fn restore_keeps_what_was_persisted() {
    let saved = PersistentState { current_term: 7, voted_for: Some(3), log: log_of(&[1, 4, 7]) };
    let n = RaftState::restore(2, vec![1, 3], saved).unwrap();
    assert_eq!(n.current_term(), 7);
    assert_eq!(n.voted_for(), Some(3));
    assert_eq!(n.last_log_index(), 3);
    assert_eq!(n.last_log_term(), 7);
    assert_eq!(n.entry(2), Some(&entry(4, 2)));
    assert_eq!(n.state(), State::Follower);
    assert_eq!(n.commit_index(), 0);
    assert_eq!(n.last_applied(), 0);
    let again = n.persistent_state();
    assert_eq!(
        again,
        PersistentState { current_term: 7, voted_for: Some(3), log: log_of(&[1, 4, 7]) }
    );
}

#[test]
fn restore_refuses_a_misindexed_log() {
    let mut log = log_of(&[1, 1]);
    log[1].index = 3;
    let saved = PersistentState { current_term: 1, voted_for: None, log };
    assert_eq!(RaftState::restore(1, vec![2], saved).err(), Some(ConfigError::CorruptLog));
    let saved = PersistentState { current_term: 1, voted_for: None, log: log_of(&[1]) };
    assert_eq!(RaftState::restore(1, vec![1], saved).err(), Some(ConfigError::SelfAmongPeers));
    let saved = PersistentState { current_term: 1, voted_for: None, log: log_of(&[1]) };
    assert_eq!(RaftState::restore(1, vec![2, 2], saved).err(), Some(ConfigError::DuplicatePeer));
}

#[test]
fn state_names_and_default() {
    assert_eq!(State::default(), State::Follower);
    assert_eq!(State::Follower.name(), "follower");
    assert_eq!(State::Candidate.name(), "candidate");
    assert_eq!(State::Leader.name(), "leader");
}

#[test]
fn election_timeout_in_the_last_term_changes_nothing() {
    let mut n = node(1, vec![2, 3], u64::MAX, &[]);
    assert_eq!(n.election_timeout(), None);
    assert_eq!(n.state(), State::Follower);
    assert_eq!(n.current_term(), u64::MAX);
    assert_eq!(n.voted_for(), None);
}

#[test]
fn election_timeout_of_a_candidate_starts_the_next_term() {
    let mut n = node(1, vec![2, 3], 4, &[1, 2]);
    let first = n.election_timeout().unwrap();
    assert_eq!(
        first,
        RequestVoteRequest { term: 5, candidate_id: 1, last_log_index: 2, last_log_term: 2 }
    );
    let second = n.election_timeout().unwrap();
    assert_eq!(second.term, 6);
    assert_eq!(n.votes_counted(), Some(1));
    assert_eq!(n.voted_for(), Some(1));
}

#[test]
fn vote_is_refused_to_an_older_term() {
    let mut n = node(2, vec![1, 3], 5, &[]);
    let request = RequestVoteRequest { term: 4, candidate_id: 1, last_log_index: 9, last_log_term: 4 };
    assert_eq!(n.request_vote(&request), RequestVoteReply { term: 5, vote_granted: false });
    assert_eq!(n.current_term(), 5);
    assert_eq!(n.voted_for(), None);
}

#[test]
fn vote_is_cast_once_per_term() {
    let mut n = node(2, vec![1, 3], 0, &[]);
    let first = RequestVoteRequest { term: 1, candidate_id: 1, last_log_index: 0, last_log_term: 0 };
    let other = RequestVoteRequest { term: 1, candidate_id: 3, last_log_index: 0, last_log_term: 0 };
    assert!(n.request_vote(&first).vote_granted);
    assert_eq!(n.request_vote(&other), RequestVoteReply { term: 1, vote_granted: false });
    // The same candidate is told again that it has the vote.
    assert!(n.request_vote(&first).vote_granted);
    assert_eq!(n.voted_for(), Some(1));
    // A new term frees the vote.
    let later = RequestVoteRequest { term: 2, candidate_id: 3, last_log_index: 0, last_log_term: 0 };
    assert_eq!(n.request_vote(&later), RequestVoteReply { term: 2, vote_granted: true });
    assert_eq!(n.voted_for(), Some(3));
}

#[test]
fn vote_is_refused_to_an_outdated_log() {
    let mut n = node(2, vec![1, 3], 3, &[1, 3]);
    // Lower last term.
    let request = RequestVoteRequest { term: 4, candidate_id: 1, last_log_index: 5, last_log_term: 2 };
    assert_eq!(n.request_vote(&request), RequestVoteReply { term: 4, vote_granted: false });
    assert_eq!(n.current_term(), 4);
    assert_eq!(n.voted_for(), None);
    // Same last term, shorter log.
    let request = RequestVoteRequest { term: 4, candidate_id: 1, last_log_index: 1, last_log_term: 3 };
    assert!(!n.request_vote(&request).vote_granted);
    // Same last term, same length.
    let request = RequestVoteRequest { term: 4, candidate_id: 1, last_log_index: 2, last_log_term: 3 };
    assert!(n.request_vote(&request).vote_granted);
    // Higher last term wins over a shorter log.
    let mut m = node(3, vec![1, 2], 3, &[1, 3]);
    let request = RequestVoteRequest { term: 5, candidate_id: 1, last_log_index: 1, last_log_term: 4 };
    assert!(m.request_vote(&request).vote_granted);
}

#[test]
fn higher_term_makes_a_leader_step_down() {
    let mut n = leader(0, &[]);
    assert_eq!(n.state(), State::Leader);
    let request = RequestVoteRequest { term: 3, candidate_id: 2, last_log_index: 0, last_log_term: 0 };
    assert!(n.request_vote(&request).vote_granted);
    assert_eq!(n.state(), State::Follower);
    assert_eq!(n.current_term(), 3);
    assert_eq!(n.voted_for(), Some(2));

    let mut n = leader(0, &[]);
    assert!(!n.request_vote_reply(2, &RequestVoteReply { term: 8, vote_granted: false }));
    assert_eq!(n.state(), State::Follower);
    assert_eq!(n.current_term(), 8);
    assert_eq!(n.voted_for(), None);

    let mut n = leader(0, &[]);
    let sent = n.append_entries_request(2).unwrap();
    n.append_entries_reply(2, &sent, &AppendEntriesReply { term: 2, success: false });
    assert_eq!(n.state(), State::Follower);
    assert_eq!(n.current_term(), 2);
}

#[test]
fn votes_are_counted_once_and_only_from_peers() {
    let mut n = node(1, vec![2, 3, 4, 5], 0, &[]);
    let request = n.election_timeout().unwrap();
    let granted = RequestVoteReply { term: request.term, vote_granted: true };
    assert!(!n.request_vote_reply(2, &granted));
    assert_eq!(n.votes_counted(), Some(2));
    // The same voter again, a stranger, a refusal and an answer from an old term.
    assert!(!n.request_vote_reply(2, &granted));
    assert!(!n.request_vote_reply(9, &granted));
    assert!(!n.request_vote_reply(3, &RequestVoteReply { term: 1, vote_granted: false }));
    assert!(!n.request_vote_reply(3, &RequestVoteReply { term: 0, vote_granted: true }));
    assert_eq!(n.votes_counted(), Some(2));
    assert_eq!(n.state(), State::Candidate);
    // The third vote of five is a majority.
    assert!(n.request_vote_reply(4, &granted));
    assert_eq!(n.state(), State::Leader);
    assert_eq!(n.next_index(5), Some(1));
    assert_eq!(n.match_index(5), Some(0));
}

#[test]
fn four_nodes_need_three_votes() {
    let mut n = node(1, vec![2, 3, 4], 0, &[]);
    let request = n.election_timeout().unwrap();
    let granted = RequestVoteReply { term: request.term, vote_granted: true };
    assert!(!n.request_vote_reply(2, &granted));
    assert_eq!(n.state(), State::Candidate);
    assert!(n.request_vote_reply(3, &granted));
    assert_eq!(n.state(), State::Leader);
}

#[test]
fn append_entries_from_an_older_term_is_refused() {
    let mut n = node(2, vec![1, 3], 5, &[1]);
    let reply = n.append_entries(&append(4, 1, 1, vec![entry(4, 2)], 2));
    assert_eq!(reply, AppendEntriesReply { term: 5, success: false });
    assert_eq!(n.last_log_index(), 1);
    assert_eq!(n.commit_index(), 0);
}

#[test]
fn append_entries_checks_the_previous_entry() {
    let mut n = node(2, vec![1, 3], 2, &[1, 1, 2]);
    // No entry at index 5.
    let reply = n.append_entries(&append(3, 5, 2, vec![], 0));
    assert_eq!(reply, AppendEntriesReply { term: 3, success: false });
    assert_eq!(n.current_term(), 3);
    // Another term at index 3.
    let reply = n.append_entries(&append(3, 3, 1, vec![], 0));
    assert!(!reply.success);
    // The right term at index 3.
    let reply = n.append_entries(&append(3, 3, 2, vec![entry(3, 4)], 0));
    assert_eq!(reply, AppendEntriesReply { term: 3, success: true });
    assert_eq!(n.last_log_index(), 4);
    // Index 0 is before the first entry and always there.
    let mut empty = node(3, vec![1, 2], 0, &[]);
    let reply = empty.append_entries(&append(1, 0, 7, vec![entry(1, 1)], 0));
    assert!(reply.success);
    assert_eq!(empty.last_log_index(), 1);
}

#[test]
fn append_entries_refuses_misindexed_entries() {
    let mut n = node(2, vec![1, 3], 1, &[1]);
    let reply = n.append_entries(&append(1, 1, 1, vec![entry(1, 3)], 0));
    assert_eq!(reply, AppendEntriesReply { term: 1, success: false });
    assert_eq!(n.last_log_index(), 1);
    let reply = n.append_entries(&append(1, 1, 1, vec![entry(1, 2), entry(1, 2)], 0));
    assert!(!reply.success);
    assert_eq!(n.last_log_index(), 1);
}

#[test]
fn append_entries_keeps_matching_entries_and_cuts_at_the_first_conflict() {
    let mut n = node(2, vec![1, 3], 3, &[1, 1, 2, 2, 2]);
    // Entries 2 and 3 are there already; entry 4 has another term.
    let offered = vec![entry(1, 2), entry(2, 3), entry(3, 4)];
    let reply = n.append_entries(&append(3, 1, 1, offered, 0));
    assert!(reply.success);
    assert_eq!(n.last_log_index(), 4);
    assert_eq!(n.entry(3).unwrap().term, 2);
    assert_eq!(n.entry(4).unwrap().term, 3);
    assert_eq!(n.entry(5), None);
    // A repeated, shorter call changes nothing: all of it is there.
    let reply = n.append_entries(&append(3, 1, 1, vec![entry(1, 2)], 0));
    assert!(reply.success);
    assert_eq!(n.last_log_index(), 4);
    assert_eq!(n.entry(4).unwrap().term, 3);
}

#[test]
fn append_entries_advances_the_commit_index_and_never_lowers_it() {
    let mut n = node(2, vec![1, 3], 1, &[1, 1, 1]);
    // The leader has committed more than this call brings.
    let reply = n.append_entries(&append(1, 1, 1, vec![entry(1, 2)], 9));
    assert!(reply.success);
    assert_eq!(n.commit_index(), 2);
    // The leader's commit index is the smaller one.
    let reply = n.append_entries(&append(1, 3, 1, vec![entry(1, 4)], 3));
    assert!(reply.success);
    assert_eq!(n.commit_index(), 3);
    // A stale call with a lower commit index leaves it.
    let reply = n.append_entries(&append(1, 0, 0, vec![entry(1, 1)], 1));
    assert!(reply.success);
    assert_eq!(n.commit_index(), 3);
    assert_eq!(n.last_applied(), 0);
    assert_eq!(n.apply_committed().len(), 3);
    assert_eq!(n.last_applied(), 3);
    assert_eq!(n.apply_committed(), Vec::<ApplyOutcome>::new());
    assert_eq!(n.last_applied(), 3);
}

#[test]
fn append_entries_never_replaces_a_committed_entry() {
    let mut n = node(2, vec![1, 3], 1, &[1, 1, 1]);
    assert!(n.append_entries(&append(1, 3, 1, vec![], 2)).success);
    assert_eq!(n.commit_index(), 2);
    // Entry 2 is committed; a call that offers another entry for it is refused.
    let reply = n.append_entries(&append(2, 1, 1, vec![entry(2, 2)], 0));
    assert_eq!(reply, AppendEntriesReply { term: 2, success: false });
    assert_eq!(n.last_log_index(), 3);
    assert_eq!(n.entry(2).unwrap().term, 1);
    // Entry 3 is not committed and may be replaced.
    let reply = n.append_entries(&append(2, 2, 1, vec![entry(2, 3)], 0));
    assert!(reply.success);
    assert_eq!(n.entry(3).unwrap().term, 2);
    assert_eq!(n.commit_index(), 2);
}

#[test]
fn leader_is_recognized_by_its_term() {
    let n = node(2, vec![1, 3], 5, &[]);
    assert!(!n.recognizes_leader(&append(4, 0, 0, vec![], 0)));
    assert!(n.recognizes_leader(&append(5, 9, 9, vec![], 0)));
    assert!(n.recognizes_leader(&append(6, 0, 0, vec![], 0)));
    let l = leader(0, &[]);
    assert!(!l.recognizes_leader(&append(1, 0, 0, vec![], 0)));
    assert!(l.recognizes_leader(&append(2, 0, 0, vec![], 0)));
}

#[test]
fn append_entries_turns_a_candidate_into_a_follower() {
    let mut n = node(1, vec![2, 3], 0, &[]);
    let _ = n.election_timeout();
    assert_eq!(n.state(), State::Candidate);
    let reply = n.append_entries(&append(1, 0, 0, vec![], 0));
    assert_eq!(reply, AppendEntriesReply { term: 1, success: true });
    assert_eq!(n.state(), State::Follower);
    assert_eq!(n.voted_for(), Some(1));
}

#[test]
fn leader_refuses_a_call_in_its_own_term() {
    let mut n = leader(0, &[]);
    let _ = n.submit(put("a", "1")).unwrap();
    let reply = n.append_entries(&append(1, 0, 0, vec![entry(1, 1)], 0));
    assert_eq!(reply, AppendEntriesReply { term: 1, success: false });
    assert_eq!(n.state(), State::Leader);
    assert_eq!(n.entry(1).unwrap().command, put("a", "1"));
}

#[test]
fn append_entries_request_follows_next_index() {
    let mut n = leader(2, &[1, 2, 2]);
    assert_eq!(n.append_entries_request(7), None);
    let first = n.append_entries_request(2).unwrap();
    assert_eq!(first, append_from(3, 1, 3, 2, vec![], 0));
    n.append_entries_reply(2, &first, &AppendEntriesReply { term: 3, success: false });
    assert_eq!(n.next_index(2), Some(3));
    assert_eq!(n.next_index(3), Some(4));
    let second = n.append_entries_request(2).unwrap();
    assert_eq!(second, append_from(3, 1, 2, 2, vec![entry(2, 3)], 0));
    // A follower gets no calls to send.
    let f = node(2, vec![1, 3], 0, &[]);
    assert_eq!(f.append_entries_request(1), None);
}

fn append_from(term: u64, leader_id: u64, prev: u64, prev_term: u64, entries: Vec<LogEntry>, commit: u64) -> AppendEntriesRequest {
    AppendEntriesRequest {
        term,
        leader_id,
        prev_log_index: prev,
        prev_log_term: prev_term,
        entries,
        leader_commit: commit,
    }
}

#[test]
fn next_index_is_never_set_below_one() {
    let mut n = leader(0, &[]);
    let sent = n.append_entries_request(2).unwrap();
    assert_eq!(n.next_index(2), Some(1));
    n.append_entries_reply(2, &sent, &AppendEntriesReply { term: 1, success: false });
    assert_eq!(n.next_index(2), Some(1));
}

#[test]
fn answers_that_are_no_longer_awaited_are_dropped() {
    let mut n = leader(0, &[]);
    let _ = n.submit(put("a", "1")).unwrap();
    let sent = n.append_entries_request(2).unwrap();
    let ok = AppendEntriesReply { term: 1, success: true };
    // From a node that is no peer.
    n.append_entries_reply(9, &sent, &ok);
    assert_eq!(n.commit_index(), 0);
    // To a call of another term.
    let mut old = n.append_entries_request(2).unwrap();
    old.term = 0;
    n.append_entries_reply(2, &old, &ok);
    assert_eq!(n.match_index(2), Some(0));
    // To a call of another leader.
    let mut foreign = n.append_entries_request(2).unwrap();
    foreign.leader_id = 3;
    n.append_entries_reply(2, &foreign, &ok);
    assert_eq!(n.match_index(2), Some(0));
    // To a call that claims more than the log holds.
    let mut long = n.append_entries_request(2).unwrap();
    long.prev_log_index = 5;
    n.append_entries_reply(2, &long, &ok);
    assert_eq!(n.match_index(2), Some(0));
    // A success that names an older term.
    n.append_entries_reply(2, &sent, &AppendEntriesReply { term: 0, success: true });
    assert_eq!(n.match_index(2), Some(0));
    assert_eq!(n.commit_index(), 0);
    // The awaited answer counts.
    n.append_entries_reply(2, &sent, &ok);
    assert_eq!(n.match_index(2), Some(1));
    assert_eq!(n.next_index(2), Some(2));
    assert_eq!(n.commit_index(), 1);
    // A follower drops every answer.
    let mut f = node(2, vec![1, 3], 1, &[1]);
    f.append_entries_reply(1, &sent, &ok);
    assert_eq!(f.state(), State::Follower);
    assert_eq!(f.commit_index(), 0);
}

#[test]
fn five_nodes_commit_with_three_holders() {
    let mut n = node(1, vec![2, 3, 4, 5], 0, &[]);
    let request = n.election_timeout().unwrap();
    let granted = RequestVoteReply { term: request.term, vote_granted: true };
    n.request_vote_reply(2, &granted);
    assert!(n.request_vote_reply(3, &granted));
    let _ = n.submit(put("a", "1")).unwrap();
    let _ = n.submit(put("b", "2")).unwrap();
    let ok = AppendEntriesReply { term: 1, success: true };
    let sent = n.append_entries_request(2).unwrap();
    n.append_entries_reply(2, &sent, &ok);
    assert_eq!(n.match_index(2), Some(2));
    assert_eq!(n.commit_index(), 0);
    // The second peer holds only the first entry.
    let mut short = n.append_entries_request(3).unwrap();
    short.entries.truncate(1);
    n.append_entries_reply(3, &short, &ok);
    assert_eq!(n.match_index(3), Some(1));
    assert_eq!(n.commit_index(), 1);
    let sent = n.append_entries_request(4).unwrap();
    n.append_entries_reply(4, &sent, &ok);
    assert_eq!(n.commit_index(), 2);
}

#[test]
fn submit_returns_the_slot_and_term() {
    let mut n = leader(4, &[1, 4]);
    assert_eq!(n.submit(put("a", "1")), Ok(Ticket { index: 3, term: 5 }));
    assert_eq!(n.submit(put("b", "2")), Ok(Ticket { index: 4, term: 5 }));
    assert_eq!(n.entry(4), Some(&LogEntry { term: 5, index: 4, command: put("b", "2") }));
    let mut f = node(2, vec![1, 3], 4, &[1, 4]);
    assert_eq!(f.submit(put("a", "1")), Err(NotLeader));
    assert_eq!(f.last_log_index(), 2);
}

#[test]
fn poll_follows_the_entry() {
    let mut n = leader(0, &[]);
    let ticket = n.submit(put("a", "1")).unwrap();
    assert_eq!(n.poll(&ticket), Progress::Pending);
    assert_eq!(n.poll(&Ticket { index: 1, term: 9 }), Progress::NotLeader);
    assert_eq!(n.poll(&Ticket { index: 0, term: 1 }), Progress::NotLeader);
    assert_eq!(n.poll(&Ticket { index: 2, term: 1 }), Progress::NotLeader);
    let sent = n.append_entries_request(2).unwrap();
    n.append_entries_reply(2, &sent, &AppendEntriesReply { term: 1, success: true });
    assert_eq!(n.poll(&ticket), Progress::Pending);
    assert_eq!(n.apply_committed(), vec![ApplyOutcome::Success]);
    assert_eq!(n.poll(&ticket), Progress::Done(ApplyOutcome::Success));
    // The answer stays available after the node stepped down.
    n.request_vote_reply(2, &RequestVoteReply { term: 5, vote_granted: false });
    assert_eq!(n.state(), State::Follower);
    assert_eq!(n.poll(&ticket), Progress::Done(ApplyOutcome::Success));
}

#[test]
fn command_parts_round_trip() {
    let insert = put("k", "v");
    assert_eq!((insert.kind(), insert.key(), insert.value()), (0, "k", Some("v")));
    let update = Command::Update { key: "k".to_string(), value: "w".to_string() };
    assert_eq!((update.kind(), update.key(), update.value()), (1, "k", Some("w")));
    let remove = Command::Remove { key: "k".to_string() };
    assert_eq!((remove.kind(), remove.key(), remove.value()), (2, "k", None));
    assert_eq!(Command::from_parts(0, "k".to_string(), "v".to_string()), Some(insert));
    assert_eq!(Command::from_parts(1, "k".to_string(), "w".to_string()), Some(update));
    assert_eq!(Command::from_parts(2, "k".to_string(), "x".to_string()), Some(remove));
    assert_eq!(Command::from_parts(3, "k".to_string(), "x".to_string()), None);
}

#[test]
fn cloned_entry_equals_its_source() {
    let e = entry(3, 7);
    assert_eq!(e.clone(), e);
}
