use raftkv::command::{ApplyOutcome, Command};
use raftkv::message::AppendEntriesReply;
use raftkv::raft::{RaftState, State};

fn cluster(n: u64) -> Vec<RaftState> {
    (1..=n)
        .map(|id| RaftState::new(id, (1..=n).filter(|p| *p != id).collect()).unwrap())
        .collect()
}

/// Delivers the call for votes of node `c` to every other node and the
/// answers back to it.
fn campaign(nodes: &mut Vec<RaftState>, c: usize) {
    let Some(request) = nodes[c].election_timeout() else {
        return;
    };
    for v in 0..nodes.len() {
        if v != c {
            let reply = nodes[v].request_vote(&request);
            let from = nodes[v].id();
            nodes[c].request_vote_reply(from, &reply);
        }
    }
}

/// One round of calls from node `l` to every other node.
fn heartbeat(nodes: &mut Vec<RaftState>, l: usize) -> Vec<AppendEntriesReply> {
    let mut replies = Vec::new();
    for f in 0..nodes.len() {
        if f != l {
            let to = nodes[f].id();
            if let Some(request) = nodes[l].append_entries_request(to) {
                let reply = nodes[f].append_entries(&request);
                nodes[l].append_entries_reply(to, &request, &reply);
                replies.push(reply);
            }
        }
    }
    replies
}

fn leaders_of(nodes: &[RaftState], term: u64) -> usize {
    nodes
        .iter()
        .filter(|n| n.state() == State::Leader && n.current_term() == term)
        .count()
}

#[test]
fn one_leader_per_term_when_two_stand_at_once() {
    let mut nodes = cluster(5);
    let r0 = nodes[0].election_timeout().unwrap();
    let r1 = nodes[1].election_timeout().unwrap();
    assert_eq!(r0.term, r1.term);
    // Nodes 3 and 4 hear node 1 first, node 5 hears node 2 first; each then
    // hears the other candidate too.
    for (first, second, voters) in [(r0, r1, vec![2, 3]), (r1, r0, vec![4])] {
        for v in voters {
            let a = nodes[v].request_vote(&first);
            let b = nodes[v].request_vote(&second);
            assert!(a.vote_granted);
            assert!(!b.vote_granted);
            let from = nodes[v].id();
            let (ca, cb) = if first == r0 { (0, 1) } else { (1, 0) };
            nodes[ca].request_vote_reply(from, &a);
            nodes[cb].request_vote_reply(from, &b);
        }
    }
    assert_eq!(nodes[0].state(), State::Leader);
    assert_eq!(nodes[1].state(), State::Candidate);
    assert_eq!(leaders_of(&nodes, 1), 1);
}

#[test]
fn logs_match_after_leaders_change() {
    let mut nodes = cluster(3);
    campaign(&mut nodes, 0);
    assert_eq!(nodes[0].state(), State::Leader);
    for i in 0..3 {
        let put = Command::Insert { key: format!("k{i}"), value: format!("v{i}") };
        nodes[0].submit(put).unwrap();
    }
    // Only node 2 receives the entries.
    let to = nodes[1].id();
    let request = nodes[0].append_entries_request(to).unwrap();
    let reply = nodes[1].append_entries(&request);
    nodes[0].append_entries_reply(to, &request, &reply);
    // Node 2 takes over and appends its own entry.
    campaign(&mut nodes, 1);
    assert_eq!(nodes[1].state(), State::Leader);
    assert_eq!(nodes[0].state(), State::Follower);
    nodes[1].submit(Command::Remove { key: "k0".to_string() }).unwrap();
    for _ in 0..5 {
        heartbeat(&mut nodes, 1);
    }
    for n in &nodes {
        assert_eq!(n.last_log_index(), 4);
        for index in 1..=4 {
            assert_eq!(n.entry(index), nodes[1].entry(index));
        }
    }
    assert_eq!(leaders_of(&nodes, nodes[1].current_term()), 1);
}

#[test]
fn cursors_never_fall_and_all_nodes_apply_the_same() {
    let mut nodes = cluster(3);
    campaign(&mut nodes, 2);
    let commands = vec![
        Command::Insert { key: "a".to_string(), value: "1".to_string() },
        Command::Insert { key: "a".to_string(), value: "2".to_string() },
        Command::Update { key: "a".to_string(), value: "3".to_string() },
        Command::Remove { key: "b".to_string() },
        Command::Remove { key: "a".to_string() },
        Command::Insert { key: "b".to_string(), value: "4".to_string() },
    ];
    let expected = vec![
        ApplyOutcome::Success,
        ApplyOutcome::AlreadyExists,
        ApplyOutcome::Success,
        ApplyOutcome::NotFound,
        ApplyOutcome::Success,
        ApplyOutcome::Success,
    ];
    let mut applied: Vec<Vec<ApplyOutcome>> = vec![Vec::new(); 3];
    let mut seen: Vec<(u64, u64)> = vec![(0, 0); 3];
    for command in commands {
        nodes[2].submit(command).unwrap();
        for _ in 0..2 {
            heartbeat(&mut nodes, 2);
            for i in 0..3 {
                if i % 2 == 0 {
                    applied[i].extend(nodes[i].apply_committed());
                }
                let now = (nodes[i].commit_index(), nodes[i].last_applied());
                assert!(now.0 >= seen[i].0);
                assert!(now.1 >= seen[i].1);
                assert!(now.1 <= now.0);
                seen[i] = now;
            }
        }
    }
    for i in 0..3 {
        applied[i].extend(nodes[i].apply_committed());
        assert_eq!(nodes[i].commit_index(), 6);
        assert_eq!(nodes[i].last_applied(), 6);
        assert_eq!(applied[i], expected);
        assert_eq!(nodes[i].get("b"), Ok("4"));
        assert!(nodes[i].get("a").is_err());
    }
}
