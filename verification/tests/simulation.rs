use raftkv::command::{ApplyOutcome, Command};
use raftkv::log::LogEntry;
use raftkv::message::{
    AppendEntriesReply, AppendEntriesRequest, RequestVoteReply, RequestVoteRequest,
};
use raftkv::raft::{RaftState, State};

/// A small deterministic generator of pseudo-random numbers.
struct Dice(u64);

impl Dice {
    fn roll(&mut self, sides: u64) -> u64 {
        self.0 = self.0.wrapping_mul(6364136223846793005).wrapping_add(1442695040888963407);
        (self.0 >> 33) % sides
    }
}

/// What is under way between the nodes. Nothing is ever taken out: every
/// message can be delivered late, out of order, and more than once.
#[derive(Default)]
struct Network {
    vote_requests: Vec<RequestVoteRequest>,
    vote_replies: Vec<(u64, u64, RequestVoteReply)>,
    append_requests: Vec<(u64, AppendEntriesRequest)>,
    append_replies: Vec<(u64, AppendEntriesRequest, AppendEntriesReply)>,
}

fn copy_of(request: &AppendEntriesRequest) -> AppendEntriesRequest {
    AppendEntriesRequest {
        term: request.term,
        leader_id: request.leader_id,
        prev_log_index: request.prev_log_index,
        prev_log_term: request.prev_log_term,
        entries: request.entries.clone(),
        leader_commit: request.leader_commit,
    }
}

struct Cluster {
    nodes: Vec<RaftState>,
    net: Network,
    /// For every index that some node has applied, the entry it applied.
    applied: Vec<LogEntry>,
    /// The answers of the store to the applied entries.
    answers: Vec<ApplyOutcome>,
    /// How far each node had applied in its current lifetime.
    cursors: Vec<(u64, u64)>,
    submitted: u64,
}

impl Cluster {
    fn new(size: u64) -> Cluster {
        let nodes: Vec<RaftState> = (1..=size)
            .map(|id| RaftState::new(id, (1..=size).filter(|p| *p != id).collect()).unwrap())
            .collect();
        Cluster {
            cursors: vec![(0, 0); nodes.len()],
            nodes,
            net: Network::default(),
            applied: Vec::new(),
            answers: Vec::new(),
            submitted: 0,
        }
    }

    fn step(&mut self, dice: &mut Dice) {
        let n = self.nodes.len() as u64;
        let i = dice.roll(n) as usize;
        let id = self.nodes[i].id();
        match dice.roll(20) {
            0 => {
                if let Some(request) = self.nodes[i].election_timeout() {
                    self.net.vote_requests.push(request);
                }
            }
            1 => {
                // A restart keeps what was persisted and nothing else.
                let saved = self.nodes[i].persistent_state();
                let peers = self.nodes[i].peers().clone();
                self.nodes[i] = RaftState::restore(id, peers, saved).unwrap();
                self.cursors[i] = (0, 0);
            }
            2 | 3 => {
                self.submitted += 1;
                let key = format!("k{}", dice.roll(4));
                let value = format!("v{}", self.submitted);
                let command = match dice.roll(3) {
                    0 => Command::Insert { key, value },
                    1 => Command::Update { key, value },
                    _ => Command::Remove { key },
                };
                let _ = self.nodes[i].submit(command);
            }
            4 | 5 => {
                let from = self.nodes[i].last_applied();
                let fresh = self.nodes[i].apply_committed();
                self.record_applied(i, from, &fresh);
            }
            6..=8 if !self.net.vote_requests.is_empty() => {
                let k = dice.roll(self.net.vote_requests.len() as u64) as usize;
                let request = self.net.vote_requests[k];
                let reply = self.nodes[i].request_vote(&request);
                self.net.vote_replies.push((id, request.candidate_id, reply));
            }
            9..=11 if !self.net.vote_replies.is_empty() => {
                let k = dice.roll(self.net.vote_replies.len() as u64) as usize;
                let (from, to, reply) = self.net.vote_replies[k];
                self.nodes[(to - 1) as usize].request_vote_reply(from, &reply);
            }
            12..=14 => {
                let peer = dice.roll(n) + 1;
                if let Some(request) = self.nodes[i].append_entries_request(peer) {
                    self.net.append_requests.push((peer, request));
                }
            }
            15..=17 if !self.net.append_requests.is_empty() => {
                let k = dice.roll(self.net.append_requests.len() as u64) as usize;
                let to = self.net.append_requests[k].0;
                let request = copy_of(&self.net.append_requests[k].1);
                let reply = self.nodes[(to - 1) as usize].append_entries(&request);
                self.net.append_replies.push((to, request, reply));
            }
            _ if !self.net.append_replies.is_empty() => {
                let k = dice.roll(self.net.append_replies.len() as u64) as usize;
                let from = self.net.append_replies[k].0;
                let request = copy_of(&self.net.append_replies[k].1);
                let reply = self.net.append_replies[k].2;
                let leader = (request.leader_id - 1) as usize;
                self.nodes[leader].append_entries_reply(from, &request, &reply);
            }
            _ => {}
        }
    }

    /// Holds what node `i` applied against what any node applied before.
    fn record_applied(&mut self, i: usize, from: u64, fresh: &[ApplyOutcome]) {
        for (k, answer) in fresh.iter().enumerate() {
            let index = from + k as u64 + 1;
            let entry = self.nodes[i].entry(index).unwrap().clone();
            if (index as usize) <= self.applied.len() {
                assert_eq!(entry, self.applied[index as usize - 1]);
                assert_eq!(*answer, self.answers[index as usize - 1]);
            } else {
                assert_eq!(index as usize, self.applied.len() + 1);
                self.applied.push(entry);
                self.answers.push(*answer);
            }
        }
    }

    fn check(&mut self) {
        for i in 0..self.nodes.len() {
            let a = &self.nodes[i];
            // The cursors never fall within a lifetime, and are in order.
            let now = (a.commit_index(), a.last_applied());
            assert!(now.0 >= self.cursors[i].0 && now.1 >= self.cursors[i].1);
            assert!(now.1 <= now.0 && now.0 <= a.last_log_index());
            self.cursors[i] = now;
            for j in 0..self.nodes.len() {
                let b = &self.nodes[j];
                // At most one leader per term.
                if i != j && a.state() == State::Leader && b.state() == State::Leader {
                    assert_ne!(a.current_term(), b.current_term());
                }
                // Wherever the two logs hold entries of the same term at an
                // index, they hold the same entries up to that index.
                let common = a.last_log_index().min(b.last_log_index());
                let mut same_upto = 0;
                for index in 1..=common {
                    if a.entry(index) == b.entry(index) && same_upto == index - 1 {
                        same_upto = index;
                    }
                    if a.entry(index).unwrap().term == b.entry(index).unwrap().term {
                        assert_eq!(same_upto, index);
                    }
                }
            }
            // What the node has applied is what was applied at that index.
            for index in 1..=a.last_applied() {
                assert_eq!(a.entry(index), Some(&self.applied[index as usize - 1]));
            }
        }
    }
}

fn run(size: u64, seed: u64, steps: usize) -> Cluster {
    let mut dice = Dice(seed);
    let mut cluster = Cluster::new(size);
    for _ in 0..steps {
        cluster.step(&mut dice);
        cluster.check();
    }
    cluster
}

#[test]
fn three_nodes_stay_safe_under_any_schedule() {
    let mut applied = 0;
    for seed in 0..40 {
        applied += run(3, seed, 1500).applied.len();
    }
    // The schedules are not so hostile that nothing gets done.
    assert!(applied > 0);
}

#[test]
fn five_nodes_stay_safe_under_any_schedule() {
    let mut applied = 0;
    for seed in 100..120 {
        applied += run(5, seed, 1500).applied.len();
    }
    assert!(applied > 0);
}

#[test]
fn two_nodes_stay_safe_under_any_schedule() {
    for seed in 200..220 {
        run(2, seed, 1000);
    }
}
