use raftkv::command::{ApplyOutcome, Command};
use raftkv::kv::Error;
use raftkv::log::LogEntry;
use raftkv::message::{AppendEntriesRequest, RequestVoteReply};
use raftkv::model::{NotLeader, Progress, Ticket};
use raftkv::raft::{PersistentState, RaftState, State};

fn insert(key: &str, value: &str) -> Command {
    Command::Insert { key: key.to_string(), value: value.to_string() }
}

fn entry(term: u64, index: u64) -> LogEntry {
    LogEntry { term, index, command: insert(&format!("k{index}"), &format!("v{index}")) }
}

fn saved(current_term: u64, terms: &[u64]) -> PersistentState {
    let mut log = Vec::new();
    for (i, term) in terms.iter().enumerate() {
        log.push(entry(*term, i as u64 + 1));
    }
    PersistentState { current_term, voted_for: None, log }
}

/// Three nodes with the ids 1, 2 and 3 that all hold `terms` as their log.
fn cluster_of_three(current_term: u64, terms: &[u64]) -> (RaftState, RaftState, RaftState) {
    (
        RaftState::restore(1, vec![2, 3], saved(current_term, terms)).unwrap(),
        RaftState::restore(2, vec![1, 3], saved(current_term, terms)).unwrap(),
        RaftState::restore(3, vec![1, 2], saved(current_term, terms)).unwrap(),
    )
}

/// Lets `candidate` time out and win the election with the vote of `voter`.
fn elect(candidate: &mut RaftState, voter: &mut RaftState) {
    let request = candidate.election_timeout().unwrap();
    let reply = voter.request_vote(&request);
    assert!(reply.vote_granted);
    assert!(candidate.request_vote_reply(voter.id(), &reply));
    assert_eq!(candidate.state(), State::Leader);
}

/// One round trip of replication from `leader` to `follower`; returns the
/// call that was sent and whether the follower took it.
fn replicate(leader: &mut RaftState, follower: &mut RaftState) -> (AppendEntriesRequest, bool) {
    let request = leader.append_entries_request(follower.id()).unwrap();
    let reply = follower.append_entries(&request);
    leader.append_entries_reply(follower.id(), &request, &reply);
    (request, reply.success)
}

#[test]
fn scenario_replication_commits_after_a_majority() {
    let (mut n1, mut n2, mut n3) = cluster_of_three(2, &[1, 1, 2, 2]);
    elect(&mut n1, &mut n2);
    assert_eq!(n1.current_term(), 3);
    assert_eq!(n1.last_log_index(), 4);
    assert_eq!(n1.next_index(2), Some(5));
    assert_eq!(n1.match_index(2), Some(0));

    let ticket = n1.submit(insert("a", "1")).unwrap();
    assert_eq!(ticket, Ticket { index: 5, term: 3 });
    assert_eq!(n1.last_log_index(), 5);
    assert_eq!(n1.entry(5).unwrap().term, 3);
    // Nothing is committed before a second node holds the entry.
    assert_eq!(n1.commit_index(), 0);
    assert_eq!(n1.poll(&ticket), Progress::Pending);

    let (request, success) = replicate(&mut n1, &mut n2);
    assert_eq!(request.prev_log_index, 4);
    assert_eq!(request.prev_log_term, 2);
    assert_eq!(request.entries.len(), 1);
    assert!(success);
    assert_eq!(n1.match_index(2), Some(5));
    assert_eq!(n1.next_index(2), Some(6));
    // Two of three hold entry 5 of the leader's term: it is committed.
    assert_eq!(n1.commit_index(), 5);

    let (_, success) = replicate(&mut n1, &mut n3);
    assert!(success);
    assert_eq!(n1.match_index(3), Some(5));
    assert_eq!(n1.commit_index(), 5);

    // The followers learn of the commit with the next call.
    assert_eq!(n2.commit_index(), 0);
    let (heartbeat, success) = replicate(&mut n1, &mut n2);
    assert!(success);
    assert!(heartbeat.entries.is_empty());
    assert_eq!(heartbeat.leader_commit, 5);
    assert_eq!(n2.commit_index(), 5);
    assert_eq!(n2.last_applied(), 0);
    assert_eq!(n2.apply_committed().len(), 5);
    assert_eq!(n2.last_applied(), 5);
    assert_eq!(n2.get("a"), Ok("1"));
}

#[test]
fn scenario_log_repair_converges() {
    let mut leader = RaftState::restore(1, vec![2, 3], saved(2, &[1, 1, 1, 2, 2])).unwrap();
    let mut follower = RaftState::restore(2, vec![1, 3], saved(2, &[1, 1, 1])).unwrap();
    let mut voter = RaftState::restore(3, vec![1, 2], saved(2, &[1, 1, 1, 2, 2])).unwrap();
    elect(&mut leader, &mut voter);
    assert_eq!(leader.next_index(2), Some(6));

    let (request, success) = replicate(&mut leader, &mut follower);
    assert_eq!(request.prev_log_index, 5);
    assert!(!success);
    assert_eq!(follower.last_log_index(), 3);
    assert_eq!(leader.next_index(2), Some(5));

    let (request, success) = replicate(&mut leader, &mut follower);
    assert_eq!(request.prev_log_index, 4);
    assert!(!success);
    assert_eq!(leader.next_index(2), Some(4));

    let (request, success) = replicate(&mut leader, &mut follower);
    assert_eq!(request.prev_log_index, 3);
    assert_eq!(request.prev_log_term, 1);
    assert_eq!(request.entries.len(), 2);
    assert!(success);
    assert_eq!(leader.match_index(2), Some(5));
    assert_eq!(leader.next_index(2), Some(6));

    assert_eq!(follower.last_log_index(), leader.last_log_index());
    for index in 1..=5 {
        assert_eq!(follower.entry(index), leader.entry(index));
    }
}

#[test]
fn scenario_log_repair_replaces_conflicting_entries() {
    // The follower holds two entries of term 2 that the leader never had.
    let mut leader = RaftState::restore(1, vec![2, 3], saved(3, &[1, 1, 3])).unwrap();
    let mut follower = RaftState::restore(2, vec![1, 3], saved(2, &[1, 1, 2, 2])).unwrap();
    let mut voter = RaftState::restore(3, vec![1, 2], saved(3, &[1, 1, 3])).unwrap();
    elect(&mut leader, &mut voter);
    assert_eq!(leader.current_term(), 4);
    let (request, success) = replicate(&mut leader, &mut follower);
    assert_eq!(request.prev_log_index, 3);
    assert!(!success);
    let (request, success) = replicate(&mut leader, &mut follower);
    assert_eq!(request.prev_log_index, 2);
    assert!(success);
    assert_eq!(follower.last_log_index(), 3);
    assert_eq!(follower.entry(3).unwrap().term, 3);
    assert_eq!(follower.entry(4), None);
    assert_eq!(follower.current_term(), 4);
}

#[test]
fn scenario_election() {
    let (mut n1, mut n2, mut n3) = cluster_of_three(0, &[]);
    assert_eq!(n1.state(), State::Follower);
    let request = n1.election_timeout().unwrap();
    assert_eq!(n1.state(), State::Candidate);
    assert_eq!(n1.current_term(), 1);
    assert_eq!(n1.voted_for(), Some(1));
    assert_eq!(n1.votes_counted(), Some(1));
    assert_eq!(request.term, 1);
    assert_eq!(request.candidate_id, 1);
    assert_eq!(request.last_log_index, 0);
    assert_eq!(request.last_log_term, 0);

    let reply2 = n2.request_vote(&request);
    assert_eq!(reply2, RequestVoteReply { term: 1, vote_granted: true });
    assert_eq!(n2.voted_for(), Some(1));
    assert_eq!(n2.current_term(), 1);
    let reply3 = n3.request_vote(&request);
    assert!(reply3.vote_granted);

    assert!(n1.request_vote_reply(2, &reply2));
    assert_eq!(n1.state(), State::Leader);
    assert_eq!(n1.current_term(), 1);
    // A later vote changes nothing.
    assert!(!n1.request_vote_reply(3, &reply3));
    assert_eq!(n1.state(), State::Leader);

    // The new leader heartbeats at once: a call without entries.
    let heartbeat = n1.append_entries_request(2).unwrap();
    assert_eq!(heartbeat.term, 1);
    assert_eq!(heartbeat.leader_id, 1);
    assert_eq!(heartbeat.prev_log_index, 0);
    assert_eq!(heartbeat.prev_log_term, 0);
    assert!(heartbeat.entries.is_empty());
    assert_eq!(heartbeat.leader_commit, 0);
    let reply = n2.append_entries(&heartbeat);
    assert!(reply.success);
    assert_eq!(reply.term, 1);
    // A leader's election timer is off.
    assert_eq!(n1.election_timeout(), None);
    assert_eq!(n1.current_term(), 1);
}

#[test]
fn scenario_kv_semantics_over_the_log() {
    let (mut n1, mut n2, _n3) = cluster_of_three(0, &[]);
    elect(&mut n1, &mut n2);

    let first = n1.submit(insert("a", "1")).unwrap();
    let (_, success) = replicate(&mut n1, &mut n2);
    assert!(success);
    assert_eq!(n1.commit_index(), 1);
    assert_eq!(n1.apply_committed(), vec![ApplyOutcome::Success]);
    assert_eq!(n1.poll(&first), Progress::Done(ApplyOutcome::Success));
    assert_eq!(n1.get("a"), Ok("1"));

    let second = n1.submit(insert("a", "2")).unwrap();
    assert_eq!(second.index, 2);
    assert_eq!(n1.poll(&second), Progress::Pending);
    let (_, success) = replicate(&mut n1, &mut n2);
    assert!(success);
    assert_eq!(n1.commit_index(), 2);
    assert_eq!(n1.last_applied(), 1);
    assert_eq!(n1.apply_committed(), vec![ApplyOutcome::AlreadyExists]);
    // The refused insert counts as applied like any other entry.
    assert_eq!(n1.last_applied(), 2);
    assert_eq!(n1.poll(&second), Progress::Done(ApplyOutcome::AlreadyExists));
    assert_eq!(n1.poll(&first), Progress::Done(ApplyOutcome::Success));
    assert_eq!(n1.get("a"), Ok("1"));

    // The follower applies the same entries and ends with the same store.
    let (_, success) = replicate(&mut n1, &mut n2);
    assert!(success);
    assert_eq!(
        n2.apply_committed(),
        vec![ApplyOutcome::Success, ApplyOutcome::AlreadyExists]
    );
    assert_eq!(n2.get("a"), Ok("1"));
    assert_eq!(n2.get("b"), Err(Error::DoesNotExist));
}

#[test]
fn scenario_split_vote() {
    let (mut n1, mut n2, _n3) = cluster_of_three(0, &[]);
    let request1 = n1.election_timeout().unwrap();
    let request2 = n2.election_timeout().unwrap();
    assert_eq!(request1.term, 1);
    assert_eq!(request2.term, 1);

    // Each has voted for itself and refuses the other; node 3 is not reached.
    let reply_from_2 = n2.request_vote(&request1);
    let reply_from_1 = n1.request_vote(&request2);
    assert_eq!(reply_from_2, RequestVoteReply { term: 1, vote_granted: false });
    assert_eq!(reply_from_1, RequestVoteReply { term: 1, vote_granted: false });
    assert!(!n1.request_vote_reply(2, &reply_from_2));
    assert!(!n2.request_vote_reply(1, &reply_from_1));
    assert_eq!(n1.state(), State::Candidate);
    assert_eq!(n2.state(), State::Candidate);
    assert_eq!(n1.votes_counted(), Some(1));
    assert_eq!(n2.votes_counted(), Some(1));

    // Node 1 times out first and starts over in the next term.
    let retry = n1.election_timeout().unwrap();
    assert_eq!(retry.term, 2);
    assert_eq!(n1.state(), State::Candidate);
    assert_eq!(n1.votes_counted(), Some(1));
    let reply = n2.request_vote(&retry);
    assert_eq!(reply, RequestVoteReply { term: 2, vote_granted: true });
    assert_eq!(n2.state(), State::Follower);
    assert!(n1.request_vote_reply(2, &reply));
    assert_eq!(n1.state(), State::Leader);
    assert_eq!(n1.current_term(), 2);
}

#[test]
fn submit_is_refused_by_a_follower() {
    let (mut n1, _n2, _n3) = cluster_of_three(0, &[]);
    assert_eq!(n1.submit(insert("a", "1")), Err(NotLeader));
    assert_eq!(n1.last_log_index(), 0);
    let _ = n1.election_timeout();
    assert_eq!(n1.state(), State::Candidate);
    assert_eq!(n1.submit(insert("a", "1")), Err(NotLeader));
}

#[test]
fn single_node_commits_alone() {
    let mut node = RaftState::new(7, vec![]).unwrap();
    let request = node.election_timeout().unwrap();
    assert_eq!(request.term, 1);
    assert_eq!(node.state(), State::Leader);
    let ticket = node.submit(insert("a", "1")).unwrap();
    assert_eq!(node.commit_index(), 1);
    assert_eq!(node.poll(&ticket), Progress::Pending);
    assert_eq!(node.apply_committed(), vec![ApplyOutcome::Success]);
    assert_eq!(node.poll(&ticket), Progress::Done(ApplyOutcome::Success));
    let update = node
        .submit(Command::Update { key: "a".to_string(), value: "2".to_string() })
        .unwrap();
    let remove = node.submit(Command::Remove { key: "b".to_string() }).unwrap();
    assert_eq!(
        node.apply_committed(),
        vec![ApplyOutcome::Success, ApplyOutcome::NotFound]
    );
    assert_eq!(node.poll(&update), Progress::Done(ApplyOutcome::Success));
    assert_eq!(node.poll(&remove), Progress::Done(ApplyOutcome::NotFound));
    assert_eq!(node.get("a"), Ok("2"));
}

#[test]
fn leader_does_not_commit_entries_of_an_older_term_by_count() {
    // Nodes 1 and 2 hold an entry of term 1 that was never committed.
    let mut n1 = RaftState::restore(1, vec![2, 3], saved(1, &[1])).unwrap();
    let mut n2 = RaftState::restore(2, vec![1, 3], saved(1, &[1])).unwrap();
    elect(&mut n1, &mut n2);
    assert_eq!(n1.current_term(), 2);
    let (_, success) = replicate(&mut n1, &mut n2);
    assert!(success);
    assert_eq!(n1.match_index(2), Some(1));
    // Held by two of three, but not of the leader's term: not committed.
    assert_eq!(n1.commit_index(), 0);
    // An entry of the leader's own term commits both.
    let _ = n1.submit(insert("a", "1")).unwrap();
    let (_, success) = replicate(&mut n1, &mut n2);
    assert!(success);
    assert_eq!(n1.commit_index(), 2);
}

#[test]
fn poll_reports_lost_leadership() {
    let (mut n1, mut n2, mut n3) = cluster_of_three(0, &[]);
    elect(&mut n1, &mut n2);
    let ticket = n1.submit(insert("a", "1")).unwrap();
    assert_eq!(n1.poll(&ticket), Progress::Pending);
    // Node 3 wins the next term with the vote of node 2, before the entry
    // left node 1.
    let request = n3.election_timeout().unwrap();
    assert_eq!(request.term, 1);
    let request = n3.election_timeout().unwrap();
    assert_eq!(request.term, 2);
    let reply = n2.request_vote(&request);
    assert!(reply.vote_granted);
    assert!(n3.request_vote_reply(2, &reply));
    // Node 1 learns of the new term from a call of the new leader.
    let heartbeat = n3.append_entries_request(1).unwrap();
    let reply = n1.append_entries(&heartbeat);
    assert!(reply.success);
    assert_eq!(n1.state(), State::Follower);
    assert_eq!(n1.current_term(), 2);
    // The heartbeat followed slot 0 and offered nothing, so the entry stays.
    assert_eq!(n1.last_log_index(), 1);
    assert_eq!(n1.poll(&ticket), Progress::NotLeader);
    assert_eq!(n1.poll(&Ticket { index: 9, term: 1 }), Progress::NotLeader);
}
