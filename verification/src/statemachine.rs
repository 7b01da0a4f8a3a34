//! State machine safety: what one node has committed at an index, no node
//! ever commits otherwise, and so no two nodes apply different entries at
//! one index.
//!
//! The cluster's record of committed entries only ever grows at its end,
//! and the committed part of every node's log is a prefix of it.

use crate::cluster::{AppendMsg, Cluster, Step};
use crate::commit::{carries, terms_rise};
use crate::completeness::{lemma_ackers, lemma_chosen_alive, lemma_pairs, lemma_step_keeps_choice};
use crate::election::lemma_cluster_size;
use crate::matching::{
    agree_upto, lemma_merged_is_one_of, lemma_sent_is_sound, lemma_step_moves, logs_match,
    message_sound, same_term_at,
};
use crate::model::{
    count_reaching, is_prefix, lemma_committed_entries_stay, lemma_leader_commits_by_count,
    lemma_rules_settle, NodeView,
};
use vstd::prelude::*;
use vstd::set_lib::*;

verus! {

impl Cluster {
    /// What is on record as committed was committed by count: a quorum
    /// counts toward its last index in the term of its last entry, and it is
    /// the start of the log of the leader of that term.
    pub open spec fn committed_chosen(self) -> bool {
        self.committed.len() > 0 ==> {
            let n = self.committed.len() as int;
            let term = self.committed[n - 1].term;
            &&& self.chosen(term, n)
            &&& self.committed == self.leader_logs[term].take(n)
        }
    }

    /// What node `id` has committed is the start of the record.
    pub open spec fn commits_recorded(self, id: u64) -> bool {
        let node = self.nodes[id];
        &&& node.commit_index <= self.committed.len()
        &&& forall|i: int| 0 <= i < node.commit_index ==> node.log[i] == self.committed[i]
    }

    /// What the sender of `m` had committed, as far as it is in the log
    /// behind the message, is the start of the record.
    pub open spec fn sent_commits_recorded(self, m: AppendMsg) -> bool {
        &&& m.request.leader_commit <= self.committed.len()
        &&& forall|i: int|
            0 <= i < m.request.leader_commit && i < m.log.len() ==> m.log[i] == self.committed[i]
    }

    /// What holds of commits in every state that a cluster can reach.
    pub open spec fn commit_inv(self) -> bool {
        &&& self.committed_chosen()
        &&& forall|id: u64| #[trigger] self.members.contains(id) ==> self.commits_recorded(id)
        &&& forall|m: AppendMsg| #[trigger]
            self.append_requests.contains(m) ==> self.sent_commits_recorded(m)
    }

    /// Everything that holds in every state that a cluster can reach.
    pub open spec fn safe_inv(self) -> bool {
        &&& self.full_inv()
        &&& self.commit_inv()
    }

    /// The invariant, for use where what it says in detail does not matter.
    pub closed spec fn sound(self) -> bool {
        self.safe_inv()
    }
}

/// The peers that a leader knows to hold index `n`.
pub open spec fn holders(peers: Seq<u64>, match_index: Seq<u64>, n: int) -> Set<u64> {
    Set::new(|q: u64| exists|p: int| 0 <= p < peers.len() && peers[p] == q && match_index[p] >= n)
}

/// The peers that a leader knows to hold an index are as many as it counts.
pub proof fn lemma_count_holders(peers: Seq<u64>, match_index: Seq<u64>, n: int)
    requires
        peers.no_duplicates(),
        peers.len() == match_index.len(),
    ensures
        holders(peers, match_index, n).finite(),
        holders(peers, match_index, n).len() == count_reaching(match_index, n),
    decreases peers.len(),
{
    broadcast use vstd::set::group_set_axioms;

    let all = holders(peers, match_index, n);
    if peers.len() == 0 {
        assert(all =~= Set::<u64>::empty());
    } else {
        let rest_peers = peers.drop_last();
        let rest_match = match_index.drop_last();
        let rest = holders(rest_peers, rest_match, n);
        lemma_count_holders(rest_peers, rest_match, n);
        let last = peers.last();
        assert(!rest.contains(last)) by {
            if rest.contains(last) {
                let p = choose|p: int|
                    0 <= p < rest_peers.len() && rest_peers[p] == last && rest_match[p] >= n;
                assert(peers[p] == peers[peers.len() - 1]);
            }
        }
        if match_index.last() >= n {
            assert(all =~= rest.insert(last)) by {
                assert forall|q: u64| all.contains(q) implies rest.insert(last).contains(q) by {
                    let p = choose|p: int|
                        0 <= p < peers.len() && peers[p] == q && match_index[p] >= n;
                    if p < peers.len() - 1 {
                        assert(rest_peers[p] == q && rest_match[p] >= n);
                    }
                }
                assert forall|q: u64| rest.insert(last).contains(q) implies all.contains(q) by {
                    if q == last {
                        assert(peers[peers.len() - 1] == q);
                    } else {
                        let p = choose|p: int|
                            0 <= p < rest_peers.len() && rest_peers[p] == q && rest_match[p] >= n;
                        assert(peers[p] == q && match_index[p] >= n);
                    }
                }
            }
        } else {
            assert(all =~= rest) by {
                assert forall|q: u64| all.contains(q) implies rest.contains(q) by {
                    let p = choose|p: int|
                        0 <= p < peers.len() && peers[p] == q && match_index[p] >= n;
                    assert(rest_peers[p] == q && rest_match[p] >= n);
                }
                assert forall|q: u64| rest.contains(q) implies all.contains(q) by {
                    let p = choose|p: int|
                        0 <= p < rest_peers.len() && rest_peers[p] == q && rest_match[p] >= n;
                    assert(peers[p] == q && match_index[p] >= n);
                }
            }
        }
    }
}

/// An index that a leader can commit by its own count is one that a quorum
/// counts toward on record.
pub proof fn lemma_committable_is_chosen(c: Cluster, id: u64, n: int)
    requires
        c.full_inv(),
        c.members.contains(id),
        c.nodes[id].role is Leader,
        exists|from: int| c.nodes[id].committable_from(from, n),
    ensures
        c.chosen(c.nodes[id].current_term, n),
{
    broadcast use vstd::set::group_set_axioms;

    let node = c.nodes[id];
    let term = node.current_term;
    let match_index = node.role->match_index;
    let held = holders(node.peers, match_index, n);
    assert(node.wf());
    lemma_count_holders(node.peers, match_index, n);
    lemma_cluster_size(c, id);
    assert(c.matches_acked(id));
    assert(c.leader_logs[term] == node.log);
    let counted = held.insert(id);
    assert(!held.contains(id)) by {
        if held.contains(id) {
            let p = choose|p: int|
                0 <= p < node.peers.len() && node.peers[p] == id && match_index[p] >= n;
            assert(node.peers.contains(id));
        }
    }
    assert forall|q: u64| counted.contains(q) implies c.ackers(term, n).contains(q) by {
        if q != id {
            let p = choose|p: int|
                0 <= p < node.peers.len() && node.peers[p] == q && match_index[p] >= n;
            assert(node.peers.contains(q));
            assert(node.peers.to_set().contains(q));
            assert(match_index[p] >= 1);
        }
    }
    lemma_len_subset(c.ackers(term, n), c.members);
    lemma_len_subset(counted, c.ackers(term, n));
}

/// Of two indices that quorums count toward, the one of the later term is
/// the higher, and the logs of the two leaders are the same up to the lower.
pub proof fn lemma_chosen_agree(c: Cluster, term1: u64, n1: int, term2: u64, n2: int)
    requires
        c.full_inv(),
        c.chosen(term1, n1),
        c.chosen(term2, n2),
        term1 <= term2,
    ensures
        term1 < term2 ==> n1 < n2,
        forall|i: int|
            0 <= i < n1 && i < n2 ==> c.leader_logs[term1][i] == c.leader_logs[term2][i],
{
    if term1 < term2 {
        let log1 = c.leader_logs[term1];
        let log2 = c.leader_logs[term2];
        lemma_chosen_alive(c, term1, n1);
        assert(carries(log2, term1, n1));
        assert(c.holds_log(log1) && c.holds_log(log2));
        assert(terms_rise(log2));
        if n1 >= n2 {
            assert(log2[n2 - 1].term <= log2[n1 - 1].term);
        }
        assert(logs_match(log1, log2));
        assert(same_term_at(log1, log2, n1 - 1));
        assert(agree_upto(log1, log2, n1 - 1));
    }
}

/// A cluster at its start satisfies the invariant.
pub proof fn lemma_init_safe(c: Cluster)
    requires
        c.init(),
    ensures
        c.safe_inv(),
{
    crate::completeness::lemma_init_full(c);
    assert forall|id: u64| #[trigger] c.members.contains(id) implies c.commits_recorded(id) by {
        assert(c.nodes[id] == NodeView::initial(id, c.nodes[id].peers));
    }
}

/// An index that a quorum counts toward stays one.
proof fn lemma_chosen_stays(c: Cluster, step: Step, term: u64, n: int)
    requires
        c.full_inv(),
        c.enabled(step),
        c.after(step).full_inv(),
        c.chosen(term, n),
    ensures
        c.after(step).chosen(term, n),
{
    let next = c.after(step);
    lemma_pairs(c, step, term, n);
    assert forall|q: u64| c.ackers(term, n).contains(q) implies next.ackers(term, n).contains(
        q,
    ) by {
        lemma_ackers(c, step, term, n, q);
    }
    lemma_len_subset(next.ackers(term, n), next.members);
    lemma_len_subset(c.ackers(term, n), next.ackers(term, n));
}

/// Every step keeps the invariant, and only ever adds to the end of the
/// record of committed entries.
pub proof fn lemma_step_keeps_safe(c: Cluster, step: Step)
    requires
        c.safe_inv(),
        c.enabled(step),
    ensures
        c.after(step).safe_inv(),
        is_prefix(c.committed, c.after(step).committed),
{
    let next = c.after(step);
    let id = step.actor();
    let before = c.nodes[id];
    let after = c.moved(step);
    lemma_step_keeps_choice(c, step);
    lemma_step_moves(c, step);
    lemma_rules_settle(before);
    lemma_committed_entries_stay(before);
    lemma_leader_commits_by_count(before);
    lemma_sent_is_sound(c, step);
    assert(c.commits_recorded(id));
    let old_n = c.committed.len() as int;
    if old_n > 0 {
        let old_term = c.committed[old_n - 1].term;
        lemma_chosen_stays(c, step, old_term, old_n);
        crate::completeness::lemma_leader_log_grows(c, step, old_term);
        assert(c.committed =~= next.leader_logs[old_term].take(old_n));
    }
    // What the node of the step has committed after it agrees with the record.
    let n = after.commit_index as int;
    assert(forall|i: int| 0 <= i < n && i < old_n ==> after.log[i] == c.committed[i]) by {
        if after.commit_index > before.commit_index {
            if after.role is Leader {
                let term = after.current_term;
                assert(next.members.contains(id) && next.nodes[id] == after);
                assert(after.committable_from(before.commit_index as int, n));
                lemma_committable_is_chosen(next, id, n);
                assert(next.leader_logs[term] == after.log);
                if old_n > 0 {
                    let old_term = c.committed[old_n - 1].term;
                    if term <= old_term {
                        lemma_chosen_agree(next, term, n, old_term, old_n);
                    } else {
                        lemma_chosen_agree(next, old_term, old_n, term, n);
                    }
                }
            } else {
                lemma_follower_commit(c, step);
            }
        }
    }
    if n > old_n {
        assert(next.committed == after.log.take(n));
        if after.role is Leader {
            let term = after.current_term;
            assert(next.members.contains(id) && next.nodes[id] == after);
            assert(after.committable_from(before.commit_index as int, n));
            lemma_committable_is_chosen(next, id, n);
            assert(next.leader_logs[term] == after.log);
        } else {
            lemma_follower_commit(c, step);
        }
    } else {
        assert(next.committed == c.committed);
    }
    assert forall|x: u64| #[trigger] next.members.contains(x) implies next.commits_recorded(x) by {
        if x != id {
            assert(c.commits_recorded(x));
        }
    }
    assert forall|m: AppendMsg| #[trigger] next.append_requests.contains(m) implies next.sent_commits_recorded(
        m,
    ) by {
        if c.append_requests.contains(m) {
            assert(c.sent_commits_recorded(m));
        } else {
            let p = before.peers.index_of(step->peer);
        }
    }
}

/// A follower never commits beyond the record, and what it commits is what
/// the record holds.
proof fn lemma_follower_commit(c: Cluster, step: Step)
    requires
        c.safe_inv(),
        c.enabled(step),
        !(c.moved(step).role is Leader),
        c.moved(step).commit_index > c.nodes[step.actor()].commit_index,
    ensures
        c.moved(step).commit_index <= c.committed.len(),
        forall|i: int|
            0 <= i < c.moved(step).commit_index ==> c.moved(step).log[i] == c.committed[i],
{
    let id = step.actor();
    let before = c.nodes[id];
    let after = c.moved(step);
    lemma_rules_settle(before);
    lemma_committed_entries_stay(before);
    lemma_leader_commits_by_count(before);
    assert(c.commits_recorded(id));
    assert(before.wf());
    match step {
        Step::DeliverAppend { msg } => {
            assert(c.sent_commits_recorded(msg));
            assert(message_sound(msg));
            assert(c.holds_log(msg.log));
            assert(c.holds_log(before.log));
            lemma_merged_is_one_of(before.log, msg);
        },
        Step::Submit { node, command } => {
            crate::model::lemma_commit_advanced(before);
        },
        Step::DeliverAppendReply { msg } => {
            crate::model::lemma_cursors_never_fall(before);
        },
        _ => {},
    }
}

/// What `sound` stands for.
pub proof fn lemma_sound(c: Cluster)
    ensures
        c.sound() == c.safe_inv(),
{
}

/// Every step keeps the cluster sound.
pub proof fn lemma_step_keeps_sound(c: Cluster, step: Step)
    requires
        c.sound(),
        c.enabled(step),
    ensures
        c.after(step).sound(),
{
    lemma_step_keeps_safe(c, step);
}

} // verus!
