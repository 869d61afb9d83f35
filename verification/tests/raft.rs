use fiducia_brain::cluster::Command;
use fiducia_brain::model::{NodeId, ScalePlan};
use fiducia_brain::raft::{
    Addressed, AppendEntriesReq, AppendEntriesResp, InstallSnapshotReq, InstallSnapshotResp,
    LogEntry, Persisted, Raft, RaftConfig, RaftMessage, RequestVoteReq, RequestVoteResp, Role,
};
use std::collections::{HashMap, HashSet};

fn cfg() -> RaftConfig {
    RaftConfig {
        heartbeat_ticks: 1,
        election_min_ticks: 5,
        election_max_ticks: 10,
    }
}

fn plan(n: u32) -> Command {
    Command::SetScalePlan(ScalePlan {
        target_nodes: n,
        replication_factor: 3,
    })
}

struct Cluster {
    nodes: HashMap<NodeId, Raft>,
    durable: HashMap<NodeId, Persisted>,
    applied: HashMap<NodeId, Vec<Command>>,
    /// Last snapshot bytes each member restored via InstallSnapshot.
    snapshots: HashMap<NodeId, Vec<u8>>,
    down: HashSet<NodeId>,
}

impl Cluster {
    fn new(n: usize) -> Self {
        let ids: Vec<NodeId> = (0..n).map(|i| format!("brain-{i}")).collect();
        let mut nodes = HashMap::new();
        let mut applied = HashMap::new();
        for (i, id) in ids.iter().enumerate() {
            let peers = ids.iter().filter(|p| *p != id).cloned().collect();
            nodes.insert(
                id.clone(),
                Raft::new(
                    id.clone(),
                    peers,
                    cfg(),
                    (i as u64) + 1,
                    Persisted::default(),
                ),
            );
            applied.insert(id.clone(), Vec::new());
        }
        Cluster {
            nodes,
            durable: HashMap::new(),
            applied,
            snapshots: HashMap::new(),
            down: HashSet::new(),
        }
    }

    fn ids(&self) -> Vec<NodeId> {
        let mut v: Vec<_> = self.nodes.keys().cloned().collect();
        v.sort();
        v
    }

    /// Drain every reachable node's `ready()`, persist, apply, and deliver
    /// messages, until the cluster is quiescent.
    fn pump(&mut self) {
        for _ in 0..1000 {
            let mut queue: Vec<(NodeId, Addressed)> = Vec::new();
            for id in self.ids() {
                if self.down.contains(&id) {
                    continue;
                }
                let ready = self.nodes.get_mut(&id).unwrap().ready();
                if let Some(p) = ready.persist {
                    self.durable.insert(id.clone(), p); // persist BEFORE send/apply
                }
                if let Some(data) = ready.restore {
                    // An installed snapshot resets the state machine: in the
                    // harness, record the bytes (a real driver would reload them).
                    self.snapshots.insert(id.clone(), data);
                }
                self.applied
                    .get_mut(&id)
                    .unwrap()
                    .extend(ready.committed.into_iter().map(|(_, cmd)| cmd));
                for m in ready.messages {
                    queue.push((id.clone(), m));
                }
            }
            if queue.is_empty() {
                return;
            }
            for (from, addressed) in queue {
                if self.down.contains(&from) || self.down.contains(&addressed.to) {
                    continue; // partitioned link drops the message
                }
                if let Some(target) = self.nodes.get_mut(&addressed.to) {
                    target.step(from.clone(), addressed.msg);
                }
            }
        }
        panic!("cluster did not settle");
    }

    fn tick_all(&mut self) {
        for id in self.ids() {
            if !self.down.contains(&id) {
                self.nodes.get_mut(&id).unwrap().tick();
            }
        }
    }

    /// Tick until some reachable member becomes leader (bounded), settling
    /// message exchange after each tick.
    fn elect(&mut self) -> NodeId {
        for _ in 0..200 {
            self.tick_all();
            self.pump();
            if let Some(l) = self.leader() {
                return l;
            }
        }
        panic!("no leader elected");
    }

    fn leaders(&self) -> Vec<NodeId> {
        let mut v: Vec<_> = self
            .nodes
            .values()
            .filter(|r| r.is_leader() && !self.down.contains(r.id()))
            .map(|r| r.id().clone())
            .collect();
        v.sort();
        v
    }
    fn leader(&self) -> Option<NodeId> {
        self.leaders().into_iter().next()
    }
    fn node(&mut self, id: &str) -> &mut Raft {
        self.nodes.get_mut(id).unwrap()
    }
}

#[test]
fn three_members_elect_exactly_one_leader() {
    let mut c = Cluster::new(3);
    c.elect();
    assert_eq!(c.leaders().len(), 1, "exactly one leader");
}

#[test]
fn leader_replicates_and_commits_a_command_to_all_members() {
    let mut c = Cluster::new(3);
    let leader = c.elect();
    let idx = c.node(&leader).propose(plan(7)).unwrap();
    c.pump();

    // Committed and applied on every member.
    for id in c.ids() {
        assert!(
            c.applied[&id].iter().any(|cmd| matches!(
                cmd,
                Command::SetScalePlan(p) if p.target_nodes == 7
            )),
            "{id} applied the command"
        );
        assert!(c.durable[&id].commit_index >= idx, "{id} persisted commit");
    }
}

#[test]
fn a_minority_partition_cannot_commit() {
    let mut c = Cluster::new(3);
    let leader = c.elect();

    // Isolate two of the three members: the (former) leader, if still up, is
    // now in a minority and cannot commit.
    let others: Vec<NodeId> = c.ids().into_iter().filter(|i| *i != leader).collect();
    c.down.insert(others[0].clone());
    c.down.insert(others[1].clone());

    let before = c.node(&leader).commit_index();
    let _ = c.node(&leader).propose(plan(99));
    c.pump();
    assert_eq!(
        c.node(&leader).commit_index(),
        before,
        "a lone member cannot advance commit"
    );
}

#[test]
fn losing_the_leader_elects_a_new_one_from_the_majority() {
    let mut c = Cluster::new(3);
    let leader = c.elect();
    c.node(&leader).propose(plan(1)).unwrap();
    c.pump();

    // Leader dies; the remaining two are a majority and must elect a new leader.
    c.down.insert(leader.clone());
    let new_leader = c.elect();
    assert_ne!(new_leader, leader);
    assert_eq!(c.leaders().len(), 1);

    // New leader can still commit (its log carried the prior entry forward).
    c.node(&new_leader).propose(plan(2)).unwrap();
    c.pump();
    let up: Vec<NodeId> = c.ids().into_iter().filter(|i| *i != leader).collect();
    for id in up {
        assert!(c.applied[&id]
            .iter()
            .any(|cmd| matches!(cmd, Command::SetScalePlan(p) if p.target_nodes == 2)));
    }
}

#[test]
fn deposed_leader_write_is_discarded_after_new_term_commits() {
    let mut c = Cluster::new(3);
    let old = c.elect();
    c.node(&old).propose(plan(1)).unwrap();
    c.pump();

    // Partition the leader away; the surviving majority elects + commits.
    c.down.insert(old.clone());
    let new = c.elect();
    assert_ne!(new, old);
    c.node(&new).propose(plan(2)).unwrap();
    c.pump();

    // The danger moment: the isolated old leader still believes it leads
    // and appends a stale proposal to its own log.
    c.node(&old)
        .propose(plan(99))
        .expect("an isolated leader cannot know it was deposed yet");

    // Heal. The successor's higher-term traffic must depose the old leader
    // and overwrite its stale suffix.
    c.down.remove(&old);
    for _ in 0..10 {
        c.tick_all();
        c.pump();
    }

    assert_eq!(
        c.leaders(),
        vec![new.clone()],
        "exactly one leader survives"
    );

    for id in c.ids() {
        assert!(
            c.applied[&id]
                .iter()
                .any(|cmd| matches!(cmd, Command::SetScalePlan(p) if p.target_nodes == 2)),
            "{id} must apply the successor's committed write"
        );
        assert!(
            !c.applied[&id]
                .iter()
                .any(|cmd| matches!(cmd, Command::SetScalePlan(p) if p.target_nodes == 99)),
            "{id} applied the deposed leader's stale write"
        );
    }

    // And the deposed member now refuses proposals, pointing at the leader.
    match c.node(&old).propose(plan(3)) {
        Err(hint) => assert_eq!(hint.as_ref(), Some(&new), "leader hint after step-down"),
        Ok(_) => panic!("a deposed leader must not accept proposals"),
    }
}

#[test]
fn restart_recovers_committed_state_from_persisted_log() {
    let mut c = Cluster::new(3);
    let leader = c.elect();
    c.node(&leader).propose(plan(42)).unwrap();
    c.pump();

    // Restart a follower from its persisted state (fresh volatile state, empty
    // state machine) and confirm it replays the committed command.
    let follower = c.ids().into_iter().find(|i| *i != leader).unwrap();
    let restored = c.durable[&follower].clone();
    assert!(restored.commit_index >= 1, "commit was persisted");
    let peers = c.ids().into_iter().filter(|i| *i != follower).collect();
    let mut revived = Raft::new(follower.clone(), peers, cfg(), 7, restored);
    let ready = revived.ready();
    assert!(
        ready
            .committed
            .iter()
            .any(|(_, cmd)| matches!(cmd, Command::SetScalePlan(p) if p.target_nodes == 42)),
        "a restarted member replays its committed log into a fresh state machine"
    );
}

#[test]
fn single_member_group_self_commits() {
    let mut c = Cluster::new(1);
    let leader = c.elect();
    assert_eq!(leader, "brain-0");
    let idx = c.node(&leader).propose(plan(5)).unwrap();
    c.pump();
    assert!(c.node(&leader).commit_index() >= idx);
    assert!(c.applied[&leader]
        .iter()
        .any(|cmd| matches!(cmd, Command::SetScalePlan(p) if p.target_nodes == 5)));
}

#[test]
fn compaction_drops_the_log_prefix_but_keeps_serving() {
    let mut c = Cluster::new(3);
    let leader = c.elect();
    for n in 1..=4 {
        c.node(&leader).propose(plan(n)).unwrap();
    }
    c.pump();
    let commit = c.node(&leader).commit_index();

    c.node(&leader).compact(commit, b"snap".to_vec());
    assert_eq!(c.node(&leader).base_index(), commit);
    assert_eq!(
        c.node(&leader).log_len(),
        0,
        "entries up to the snapshot are gone"
    );

    // The leader keeps committing on top of a compacted log.
    let idx = c.node(&leader).propose(plan(99)).unwrap();
    assert!(idx > commit, "new entries continue past the snapshot base");
    c.pump();
    for id in c.ids() {
        assert!(c.applied[&id]
            .iter()
            .any(|cmd| matches!(cmd, Command::SetScalePlan(p) if p.target_nodes == 99)));
    }
}

#[test]
fn a_lagging_follower_is_caught_up_by_install_snapshot() {
    let mut c = Cluster::new(3);
    let leader = c.elect();

    // Commit a batch while one follower is partitioned away, so it misses them.
    let lagger = c.ids().into_iter().find(|i| *i != leader).unwrap();
    c.down.insert(lagger.clone());
    for n in 1..=6 {
        c.node(&leader).propose(plan(n)).unwrap();
    }
    c.pump();
    let commit = c.node(&leader).commit_index();
    assert!(commit >= 6);

    // Leader compacts past everything the lagger is missing.
    let snap = b"state@compact".to_vec();
    c.node(&leader).compact(commit, snap.clone());
    assert_eq!(c.node(&leader).log_len(), 0);

    // Bring the lagger back. It needs entries the leader no longer has, so the
    // leader must catch it up with an InstallSnapshot, not AppendEntries.
    c.down.remove(&lagger);
    for _ in 0..6 {
        c.tick_all();
        c.pump();
    }

    assert_eq!(
        c.node(&lagger).base_index(),
        commit,
        "follower jumped to the snapshot base"
    );
    assert_eq!(
        c.snapshots.get(&lagger),
        Some(&snap),
        "follower restored the snapshot bytes the leader sent"
    );
    assert!(c.node(&lagger).commit_index() >= commit);
}

#[test]
fn five_member_group_requires_three_reachable_members_to_commit() {
    let mut c = Cluster::new(5);
    let leader = c.elect();
    let followers: Vec<_> = c.ids().into_iter().filter(|id| *id != leader).collect();
    for id in followers.iter().skip(1) {
        c.down.insert(id.clone());
    }

    let before = c.node(&leader).commit_index();
    let proposed = c.node(&leader).propose(plan(55)).unwrap();
    c.pump();
    assert_eq!(
        c.node(&leader).commit_index(),
        before,
        "leader plus one follower is not a majority of five"
    );

    c.down.remove(&followers[1]);
    for _ in 0..4 {
        c.tick_all();
        c.pump();
    }
    assert!(
        c.node(&leader).commit_index() >= proposed,
        "restoring a third member lets the pending entry commit"
    );
}

fn follower_of(peer: &str) -> Raft {
    Raft::new(
        "brain-0".to_string(),
        vec![peer.to_string()],
        cfg(),
        1,
        Persisted::default(),
    )
}

fn append(
    from: &str,
    prev: u64,
    prev_term: u64,
    entries: Vec<LogEntry>,
    commit: u64,
) -> RaftMessage {
    RaftMessage::AppendEntries(AppendEntriesReq {
        term: 1,
        leader_id: from.to_string(),
        prev_log_index: prev,
        prev_log_term: prev_term,
        entries,
        leader_commit: commit,
    })
}

fn last_resp(r: &mut Raft) -> AppendEntriesResp {
    match r.ready().messages.pop().map(|a| a.msg) {
        Some(RaftMessage::AppendEntriesResp(resp)) => resp,
        other => panic!("expected an AppendEntriesResp, got {other:?}"),
    }
}

#[test]
fn an_append_with_a_non_contiguous_entry_index_is_rejected() {
    let mut r = follower_of("brain-1");
    r.step(
        "brain-1".to_string(),
        append(
            "brain-1",
            0,
            0,
            vec![LogEntry {
                term: 1,
                index: 1000,
                command: None,
            }],
            0,
        ),
    );
    assert!(!last_resp(&mut r).success, "forged index must be rejected");
    assert_eq!(r.log_len(), 0, "nothing was spliced into the log");

    // A heartbeat referencing the phantom range, and a commit point beyond
    // anything we hold.
    r.step(
        "brain-1".to_string(),
        append("brain-1", 500, 1, vec![], 1000),
    );
    let resp = last_resp(&mut r);
    assert!(!resp.success);
    assert_eq!(r.commit_index(), 0, "commit cannot run past the log");

    // A well-formed batch from the same leader still applies normally.
    r.step(
        "brain-1".to_string(),
        append(
            "brain-1",
            0,
            0,
            vec![LogEntry {
                term: 1,
                index: 1,
                command: Some(plan(4)),
            }],
            1,
        ),
    );
    assert!(last_resp(&mut r).success);
    assert_eq!(r.log_len(), 1);
    assert_eq!(r.commit_index(), 1);
}

#[test]
fn a_message_from_an_unconfigured_sender_is_ignored() {
    let mut r = follower_of("brain-1");
    r.step(
        "http://attacker.example/".to_string(),
        RaftMessage::AppendEntries(AppendEntriesReq {
            term: 9,
            leader_id: "http://attacker.example/".to_string(),
            prev_log_index: 0,
            prev_log_term: 0,
            entries: vec![],
            leader_commit: 0,
        }),
    );
    assert_eq!(r.leader(), None, "an unknown sender never becomes leader");
    assert_eq!(r.term(), 0, "and cannot push our term forward");
    assert!(r.ready().messages.is_empty(), "not even a reply");
}

#[test]
fn leader_commit_is_capped_at_the_last_entry_the_request_carried() {
    let mut r = follower_of("brain-1");
    // Two entries from the leader, nothing committed yet.
    r.step(
        "brain-1".to_string(),
        append(
            "brain-1",
            0,
            0,
            vec![
                LogEntry {
                    term: 1,
                    index: 1,
                    command: Some(plan(1)),
                },
                LogEntry {
                    term: 1,
                    index: 2,
                    command: Some(plan(2)),
                },
            ],
            0,
        ),
    );
    assert!(last_resp(&mut r).success);
    assert_eq!(r.commit_index(), 0);

    // Heartbeat matching at index 1 only: commit stops at 1, not at our last index.
    r.step("brain-1".to_string(), append("brain-1", 1, 1, vec![], 99));
    assert!(last_resp(&mut r).success);
    assert_eq!(
        r.commit_index(),
        1,
        "commit is bounded by the last replicated entry, not by our log length"
    );
}

#[test]
fn a_crafted_append_cannot_truncate_committed_entries() {
    let mut r = follower_of("brain-1");
    r.step(
        "brain-1".to_string(),
        append(
            "brain-1",
            0,
            0,
            vec![
                LogEntry {
                    term: 1,
                    index: 1,
                    command: Some(plan(1)),
                },
                LogEntry {
                    term: 1,
                    index: 2,
                    command: Some(plan(2)),
                },
            ],
            2,
        ),
    );
    assert!(last_resp(&mut r).success);
    assert_eq!(r.commit_index(), 2);

    // Claim a different term at a committed index.
    r.step("brain-1".to_string(), append("brain-1", 1, 7, vec![], 2));
    let resp = last_resp(&mut r);
    assert!(
        !resp.success,
        "a conflict below the commit point is refused"
    );
    assert_eq!(r.log_len(), 2, "committed entries survive");
    assert_eq!(r.commit_index(), 2);
}

#[test]
fn a_stale_append_is_refused_without_effect() {
    let mut r = follower_of("brain-1");
    let entry = |term| LogEntry {
        term,
        index: 1,
        command: Some(plan(1)),
    };
    let request = |term, entries| AppendEntriesReq {
        term,
        leader_id: "brain-1".to_string(),
        prev_log_index: 0,
        prev_log_term: 0,
        entries,
        leader_commit: 1,
    };
    r.handle_append("brain-1".to_string(), request(4, vec![entry(4)]));
    assert!(last_resp(&mut r).success);
    assert_eq!((r.term(), r.log_len(), r.commit_index()), (4, 1, 1));
    r.handle_append("brain-2".to_string(), request(3, vec![entry(3), entry(3)]));
    let resp = last_resp(&mut r);
    assert!(!resp.success);
    assert_eq!(resp.term, 4);
    assert_eq!(resp.match_index, 0);
    assert_eq!((r.term(), r.log_len(), r.commit_index()), (4, 1, 1));
}

#[test]
fn batches_chain_whatever_happens_between_drains() {
    let mut r = follower_of("brain-1");
    let first = r.ready();
    let entries = (1..=3)
        .map(|index| LogEntry {
            term: 1,
            index,
            command: Some(plan(index as u32)),
        })
        .collect();
    r.step("brain-1".to_string(), append("brain-1", 0, 0, entries, 1));
    r.tick();
    r.step("brain-1".to_string(), append("brain-1", 3, 1, vec![], 2));
    let second = r.ready();
    assert_eq!(second.applied_from, first.applied_upto);
    assert_eq!(second.applied_upto, 2);
    r.compact(2, vec![9]);
    r.step("brain-1".to_string(), append("brain-1", 3, 1, vec![], 3));
    let third = r.ready();
    assert_eq!(third.applied_from, second.applied_upto);
    assert!(third.restore.is_none());
    // A snapshot jumps ahead, and says so.
    r.step(
        "brain-1".to_string(),
        RaftMessage::InstallSnapshot(InstallSnapshotReq {
            term: 1,
            leader_id: "brain-1".to_string(),
            last_included_index: 8,
            last_included_term: 1,
            data: vec![7],
        }),
    );
    let fourth = r.ready();
    assert_eq!(fourth.restore, Some(vec![7]));
    assert_eq!(fourth.applied_from, 8);
    assert!(fourth.applied_from > third.applied_upto);
}

#[test]
fn a_peer_reported_match_index_at_the_u64_ceiling_does_not_overflow() {
    let mut c = Cluster::new(3);
    let leader = c.elect();
    let peer = c.ids().into_iter().find(|i| *i != leader).unwrap();
    let term = c.node(&leader).term();
    c.node(&leader).step(
        peer,
        RaftMessage::AppendEntriesResp(AppendEntriesResp {
            term,
            success: true,
            match_index: u64::MAX,
        }),
    );
    // Still leading, still sane — and the next heartbeat doesn't panic.
    assert!(c.node(&leader).is_leader());
    c.node(&leader).tick();
    c.pump();
}

#[test]
fn an_isolated_leader_steps_down_when_it_loses_quorum() {
    let mut c = Cluster::new(3);
    let leader = c.elect();
    for id in c.ids().into_iter().filter(|i| *i != leader) {
        c.down.insert(id);
    }

    // Two full election timeouts: the first window still counts the acks
    // that carried the election, the second sees silence.
    for _ in 0..(2 * cfg().election_max_ticks + 2) {
        c.tick_all();
        c.pump();
    }
    assert!(
        !c.node(&leader).is_leader(),
        "a leader without a quorum must step down"
    );
    assert!(
        c.node(&leader).propose(plan(1)).is_err(),
        "and must refuse writes it could never commit"
    );
}

#[test]
fn a_leader_with_a_quorum_keeps_leading_across_election_timeouts() {
    let mut c = Cluster::new(3);
    let leader = c.elect();
    for _ in 0..(cfg().election_max_ticks * 3) {
        c.tick_all();
        c.pump();
    }
    assert_eq!(
        c.leaders(),
        vec![leader],
        "the healthy leader is undisturbed"
    );
}

#[test]
fn healed_old_leader_steps_down_and_catches_up_to_the_new_term() {
    let mut c = Cluster::new(3);
    let old_leader = c.elect();
    c.down.insert(old_leader.clone());

    let new_leader = c.elect();
    assert_ne!(new_leader, old_leader);
    c.node(&new_leader).propose(plan(77)).unwrap();
    c.pump();

    c.down.remove(&old_leader);
    for _ in 0..8 {
        c.tick_all();
        c.pump();
    }

    assert_eq!(c.leaders().len(), 1, "healing must not leave two leaders");
    assert!(c.applied[&old_leader]
        .iter()
        .any(|cmd| matches!(cmd, Command::SetScalePlan(p) if p.target_nodes == 77)));
}

#[test]
fn default_timing() {
    let d = RaftConfig::default();
    assert_eq!(d.heartbeat_ticks, 3);
    assert_eq!(d.election_min_ticks, 10);
    assert_eq!(d.election_max_ticks, 18);
}

fn vote(from: &str, term: u64, pre_vote: bool) -> RaftMessage {
    RaftMessage::RequestVote(RequestVoteReq {
        term,
        candidate_id: from.to_string(),
        last_log_index: 0,
        last_log_term: 0,
        pre_vote,
    })
}

#[test]
fn a_member_votes_once_in_a_term() {
    let mut r = Raft::new(
        "brain-0".to_string(),
        vec!["brain-1".to_string(), "brain-2".to_string()],
        cfg(),
        1,
        Persisted::default(),
    );
    let mut granted = Vec::new();
    for peer in ["brain-1", "brain-2", "brain-1"] {
        r.step(peer.to_string(), vote(peer, 4, false));
        match r.ready().messages.pop().map(|a| a.msg) {
            Some(RaftMessage::RequestVoteResp(RequestVoteResp { granted: g, .. })) => {
                granted.push(g)
            }
            other => panic!("expected a vote, got {other:?}"),
        }
    }
    assert_eq!(granted, vec![true, false, true], "a repeat gets the same answer");
    assert_eq!(r.term(), 4);
    assert_eq!(r.role(), Role::Follower);
}

#[test]
fn a_straw_poll_binds_nobody() {
    let mut r = follower_of("brain-1");
    r.step("brain-1".to_string(), vote("brain-1", 9, true));
    assert_eq!(r.term(), 0);
    let p = r.persisted_snapshot();
    assert_eq!(p.voted_for, None);
}

#[test]
fn a_request_that_names_another_sender_is_ignored() {
    let mut r = Raft::new(
        "brain-0".to_string(),
        vec!["brain-1".to_string(), "brain-2".to_string()],
        cfg(),
        1,
        Persisted::default(),
    );
    r.step("brain-1".to_string(), vote("brain-2", 4, false));
    assert!(r.ready().messages.is_empty());
    assert_eq!(r.term(), 0);
}

#[test]
fn an_acknowledgement_names_the_last_entry_of_the_request() {
    let mut r = follower_of("brain-1");
    let e = |i: u64| LogEntry {
        term: 1,
        index: i,
        command: None,
    };
    r.step(
        "brain-1".to_string(),
        append("brain-1", 0, 0, vec![e(1), e(2), e(3)], 0),
    );
    assert_eq!(last_resp(&mut r).match_index, 3);
    r.step("brain-1".to_string(), append("brain-1", 1, 1, vec![], 0));
    assert_eq!(
        last_resp(&mut r).match_index,
        1,
        "a heartbeat acknowledges what it matched, not what the follower holds"
    );
}

#[test]
fn replication_positions_only_advance() {
    let mut c = Cluster::new(3);
    let leader = c.elect();
    for n in 1..=3 {
        c.node(&leader).propose(plan(n)).unwrap();
    }
    c.pump();
    let commit = c.node(&leader).commit_index();
    let term = c.node(&leader).term();
    let peer = c.ids().into_iter().find(|i| *i != leader).unwrap();
    c.node(&leader).step(
        peer.clone(),
        RaftMessage::AppendEntriesResp(AppendEntriesResp {
            term,
            success: true,
            match_index: 0,
        }),
    );
    c.node(&leader).step(
        peer,
        RaftMessage::AppendEntriesResp(AppendEntriesResp {
            term,
            success: false,
            match_index: 0,
        }),
    );
    c.pump();
    assert_eq!(c.node(&leader).commit_index(), commit);
    assert!(c.node(&leader).is_leader());
}

#[test]
fn a_snapshot_replaces_an_older_log() {
    let mut r = follower_of("brain-1");
    r.step(
        "brain-1".to_string(),
        RaftMessage::InstallSnapshot(InstallSnapshotReq {
            term: 2,
            leader_id: "brain-1".to_string(),
            last_included_index: 7,
            last_included_term: 2,
            data: b"state".to_vec(),
        }),
    );
    let ready = r.ready();
    assert_eq!(ready.restore.as_deref(), Some(b"state".as_slice()));
    assert_eq!(ready.applied_upto, 7);
    assert!(ready.persist.is_some());
    match ready.messages.last().map(|a| &a.msg) {
        Some(RaftMessage::InstallSnapshotResp(InstallSnapshotResp {
            success,
            last_included_index,
            ..
        })) => {
            assert!(*success);
            assert_eq!(*last_included_index, 7);
        }
        other => panic!("expected a snapshot answer, got {other:?}"),
    }
    assert_eq!(r.base_index(), 7);
    assert_eq!(r.commit_index(), 7);
    let p = r.persisted_snapshot();
    assert_eq!(p.base_term, 2);
    assert_eq!(p.snapshot.as_deref(), Some(b"state".as_slice()));
}

#[test]
fn drains_chain_and_apply_each_command_once() {
    let mut r = Raft::new(
        "solo".to_string(),
        Vec::new(),
        cfg(),
        3,
        Persisted::default(),
    );
    for _ in 0..30 {
        r.tick();
    }
    assert!(r.is_leader());
    let mut upto = 0;
    let mut seen = Vec::new();
    for n in 1..=3 {
        r.propose(plan(n)).unwrap();
        let ready = r.ready();
        assert_eq!(ready.applied_from, upto);
        upto = ready.applied_upto;
        seen.extend(ready.committed.into_iter().map(|(i, _)| i));
    }
    assert_eq!(seen, vec![2, 3, 4], "the first entry is the leader's own");
    assert!(r.ready().committed.is_empty());
    assert!(r.has_room());
    assert_eq!(r.leader().map(|l| l.as_str()), Some("solo"));
}
