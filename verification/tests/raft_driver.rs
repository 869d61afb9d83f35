use fiducia_brain::cluster::Command;
use fiducia_brain::membership::{Membership, MembershipConfig};
use fiducia_brain::model::{HeartbeatReport, ScalePlan, ShardAssignment};
use fiducia_brain::placement::Placement;
use fiducia_brain::raft::{
    AppendEntriesReq, AppendEntriesResp, InstallSnapshotReq, InstallSnapshotResp, Persisted,
    RaftConfig, RaftMessage, Ready, RequestVoteReq, RequestVoteResp,
};
use fiducia_brain::raft_driver::{
    append_reply, authorize, install_reply, rpc_of, seed_from, vote_reply, Drain, DrainAction,
    DrainEvent, RaftControlPlane, RaftSecret, Rpc, StateSnapshot, COMPACT_LOG_THRESHOLD,
};
use fiducia_brain::raft_store::{MetaRead, RaftStore, SnapshotRead};

fn cfg() -> RaftConfig {
    RaftConfig {
        heartbeat_ticks: 1,
        election_min_ticks: 3,
        election_max_ticks: 6,
    }
}

fn scale(target_nodes: u32) -> Command {
    Command::SetScalePlan(ScalePlan {
        target_nodes,
        replication_factor: 3,
    })
}

fn member(peers: &[String], has_store: bool, restored: Persisted) -> RaftControlPlane {
    let decoded = restored.snapshot.as_ref().map(|_| StateSnapshot {
        shards: Vec::new(),
        plan: ScalePlan {
            target_nodes: 17,
            replication_factor: 3,
        },
    });
    RaftControlPlane::new(
        "http://brain-0:8095".to_string(),
        peers.to_vec(),
        cfg(),
        has_store,
        restored,
        decoded,
        Membership::new(MembershipConfig::default()),
        Placement::new(4),
        ScalePlan {
            target_nodes: 3,
            replication_factor: 3,
        },
    )
    .expect("driver")
}

fn store() -> RaftStore {
    RaftStore::open(MetaRead::Missing, SnapshotRead::Missing, Vec::new(), true)
        .unwrap()
        .0
}

/// Does what a drain asks for, with a disk that keeps the last state saved.
fn run(
    cp: &mut RaftControlPlane,
    mut drain: Drain,
    store: &RaftStore,
    disk: &mut Option<Persisted>,
) -> Result<Option<RaftMessage>, ()> {
    let mut event = DrainEvent::Proceed;
    for _ in 0..20 {
        event = match cp.advance(&mut drain, event) {
            DrainAction::Save(p) => match store.save(&p) {
                Ok(_) => {
                    *disk = Some(p);
                    DrainEvent::Saved(true)
                }
                Err(_) => DrainEvent::Saved(false),
            },
            DrainAction::Decode(bytes) => DrainEvent::Decoded(decode(&bytes)),
            DrainAction::Encode(s) => DrainEvent::Encoded(Some(encode(&s))),
            DrainAction::HandOff(_) => DrainEvent::HandedOff(true),
            DrainAction::Wait => panic!("nothing can be outstanding here"),
            DrainAction::Finish(reply) => return Ok(reply),
            DrainAction::Fail => return Err(()),
        };
    }
    panic!("a drain did not come to an end");
}

fn encode(s: &StateSnapshot) -> Vec<u8> {
    s.plan.target_nodes.to_be_bytes().to_vec()
}

fn decode(bytes: &[u8]) -> Option<StateSnapshot> {
    let target_nodes = u32::from_be_bytes(bytes.try_into().ok()?);
    Some(StateSnapshot {
        shards: Vec::new(),
        plan: ScalePlan {
            target_nodes,
            replication_factor: 3,
        },
    })
}

fn elect_self(cp: &mut RaftControlPlane, store: &RaftStore, disk: &mut Option<Persisted>) {
    for _ in 0..10 {
        let drain = cp.tick().unwrap();
        run(cp, drain, store, disk).unwrap();
        if cp.is_leader() {
            return;
        }
    }
    panic!("single member did not elect itself");
}

fn propose(
    cp: &mut RaftControlPlane,
    command: Command,
    store: &RaftStore,
    disk: &mut Option<Persisted>,
) -> bool {
    match cp.propose(command) {
        Some((index, term, drain)) => {
            run(cp, drain, store, disk).is_ok() && cp.commit_outcome(index, term, true) == Some(true)
        }
        None => false,
    }
}

#[test]
fn single_member_driver_commits_persists_and_applies() {
    let store = store();
    let mut disk = None;
    let mut cp = member(&[], true, Persisted::default());
    elect_self(&mut cp, &store, &mut disk);
    assert!(cp.is_leader());

    // Propose → commit (quorum of 1) → apply.
    assert!(propose(&mut cp, scale(9), &store, &mut disk));
    assert_eq!(cp.plan.target_nodes, 9, "applied to the state machine");

    // And it was persisted.
    let reread = disk.unwrap();
    assert!(reread.commit_index >= 1, "commit persisted");
    assert!(reread.log.iter().any(|e| matches!(
        &e.command,
        Some(Command::SetScalePlan(p)) if p.target_nodes == 9
    )));
}

#[test]
fn driver_replays_persisted_log_into_a_fresh_state_machine_on_restart() {
    let store = store();
    let mut disk = None;
    // First boot: elect, propose, persist.
    let mut cp = member(&[], true, Persisted::default());
    elect_self(&mut cp, &store, &mut disk);
    assert!(propose(&mut cp, scale(11), &store, &mut disk));

    // Restart: a fresh driver + fresh (empty) state machine recovers from disk.
    let mut cp = member(&[], true, disk.clone().unwrap());
    assert_eq!(cp.plan.target_nodes, 3, "state machine starts empty");
    // The first drain replays the committed log into the state machine.
    let drain = cp.tick().unwrap();
    run(&mut cp, drain, &store, &mut disk).unwrap();
    assert_eq!(
        cp.plan.target_nodes, 11,
        "committed scale plan rebuilt from the persisted log after restart"
    );
}

#[test]
fn peer_secret_is_required_and_whitespace_is_rejected() {
    assert!(RaftSecret::parse(None).is_err());
    assert!(RaftSecret::parse(Some("   ".to_string())).is_err());
    assert_eq!(
        RaftSecret::parse(Some("  shared-secret  ".to_string()))
            .unwrap()
            .as_str(),
        "shared-secret"
    );
}

#[test]
fn persistence_failure_makes_member_unavailable_before_acknowledging() {
    let mut store = store();
    let mut disk = None;
    let mut cp = member(&[], true, Persisted::default());
    elect_self(&mut cp, &store, &mut disk);
    store.fail_saves_for_test();

    assert!(!propose(&mut cp, scale(99), &store, &mut disk));
    assert!(!cp.is_available());
    assert!(!cp.is_leader());
    assert_eq!(cp.leader_addr(), None);
    assert_eq!(
        cp.plan.target_nodes, 3,
        "unpersisted command must not be applied"
    );
    assert!(cp.tick().is_none(), "and it takes no further part");
    assert!(cp.propose(scale(1)).is_none());
}

#[test]
fn wal_failure_during_compaction_fails_closed_without_losing_committed_entries() {
    let mut store = store();
    let mut disk = None;
    let mut cp = member(&[], true, Persisted::default());
    elect_self(&mut cp, &store, &mut disk);

    // Commit entries up to the one that crosses the threshold.
    let mut last = 100;
    while cp.log_len() + 1 < COMPACT_LOG_THRESHOLD {
        assert!(propose(&mut cp, scale(last), &store, &mut disk));
        last += 1;
    }
    assert_eq!(cp.base_index(), 0, "nothing compacted yet");
    let (_, _, mut drain) = cp.propose(scale(last)).unwrap();
    // The entry itself is saved while saves are healthy.
    match cp.advance(&mut drain, DrainEvent::Proceed) {
        DrainAction::Save(p) => {
            store.save(&p).unwrap();
            disk = Some(p);
        }
        other => panic!("unexpected {other:?}"),
    }
    let snapshot = match cp.advance(&mut drain, DrainEvent::Saved(true)) {
        DrainAction::Encode(s) => s,
        other => panic!("unexpected {other:?}"),
    };
    assert_eq!(snapshot.plan.target_nodes, last);
    let commit_index = cp.commit_index();
    let live_before = cp.log_len();

    // Now every save fails — the next one attempted is compaction's.
    store.fail_saves_for_test();
    match cp.advance(&mut drain, DrainEvent::Encoded(Some(encode(&snapshot)))) {
        DrainAction::Save(p) => {
            assert_eq!(p.base_index, commit_index);
            assert!(store.save(&p).is_err());
        }
        other => panic!("unexpected {other:?}"),
    }
    assert!(matches!(
        cp.advance(&mut drain, DrainEvent::Saved(false)),
        DrainAction::Fail
    ));

    // Fail closed, with the in-memory pre-compaction engine untouched.
    assert!(!cp.is_available());
    assert!(!cp.is_leader());
    assert_eq!(cp.log_len(), live_before, "log prefix not dropped");
    assert_eq!(cp.base_index(), 0, "candidate compaction not installed");
    assert!(!propose(&mut cp, scale(999), &store, &mut disk));

    // What is durable holds every committed entry: the aborted compaction wrote
    // nothing, so nothing was lost.
    let reread = disk.unwrap();
    assert_eq!(reread.commit_index, commit_index);
    assert_eq!(reread.base_index, 0);
    assert_eq!(reread.log.len(), commit_index as usize);
    assert!(reread.log.iter().any(|e| matches!(
        &e.command,
        Some(Command::SetScalePlan(p)) if p.target_nodes == last
    )));
}

#[test]
fn a_full_log_is_compacted_and_keeps_serving() {
    let store = store();
    let mut disk = None;
    let mut cp = member(&[], true, Persisted::default());
    elect_self(&mut cp, &store, &mut disk);
    for n in 0..COMPACT_LOG_THRESHOLD as u32 + 5 {
        assert!(propose(&mut cp, scale(n + 10), &store, &mut disk));
    }
    assert!(cp.base_index() > 0);
    assert!(cp.log_len() < COMPACT_LOG_THRESHOLD);
    let kept = disk.clone().unwrap();
    assert_eq!(kept.base_index, cp.base_index());
    assert!(kept.snapshot.is_some());
    assert_eq!(cp.plan.target_nodes, COMPACT_LOG_THRESHOLD as u32 + 14);
}

#[test]
fn a_compaction_takes_nothing_back_from_an_engine_that_moved_on() {
    let store = store();
    let mut disk = None;
    let mut cp = member(&[], true, Persisted::default());
    elect_self(&mut cp, &store, &mut disk);
    while cp.log_len() + 1 < COMPACT_LOG_THRESHOLD {
        assert!(propose(&mut cp, scale(7), &store, &mut disk));
    }
    let (_, _, mut drain) = cp.propose(scale(8)).unwrap();
    assert!(matches!(
        cp.advance(&mut drain, DrainEvent::Proceed),
        DrainAction::Save(_)
    ));
    let snapshot = match cp.advance(&mut drain, DrainEvent::Saved(true)) {
        DrainAction::Encode(s) => s,
        other => panic!("unexpected {other:?}"),
    };
    let folded_at = cp.commit_index();
    match cp.advance(&mut drain, DrainEvent::Encoded(Some(encode(&snapshot)))) {
        DrainAction::Save(p) => assert_eq!(p.base_index, folded_at),
        other => panic!("unexpected {other:?}"),
    }
    // While the compacted state is being saved, one more command comes in.
    let (index, term, _) = cp.propose(scale(99)).unwrap();
    assert_eq!(index, folded_at + 1);
    assert_eq!(cp.commit_index(), index);
    assert!(matches!(
        cp.advance(&mut drain, DrainEvent::Saved(true)),
        DrainAction::Finish(_)
    ));
    assert_eq!(cp.term(), term);
    assert!(cp.is_leader());
    assert_eq!(cp.base_index(), folded_at);
    assert_eq!(cp.commit_index(), index, "what was committed stays so");
    assert_eq!(cp.log_len(), 1, "the newer entry stays");
}

#[test]
fn a_snapshot_decoded_too_late_is_not_restored() {
    let mut cp = member(&[], false, Persisted::default());
    let mut late = Drain::new(
        Ready {
            persist: None,
            restore: Some(vec![0, 0, 0, 33]),
            applied_from: 0,
            applied_upto: 4,
            messages: Vec::new(),
            committed: Vec::new(),
        },
        None,
    );
    assert!(matches!(
        cp.advance(&mut late, DrainEvent::Proceed),
        DrainAction::Decode(_)
    ));
    let mut newer = batch(0, 5, 50);
    assert!(matches!(
        cp.advance(&mut newer, DrainEvent::Proceed),
        DrainAction::Finish(None)
    ));
    assert_eq!(cp.plan.target_nodes, 50);
    assert!(matches!(
        cp.advance(&mut late, DrainEvent::Decoded(decode(&[0, 0, 0, 33]))),
        DrainAction::Finish(None)
    ));
    assert_eq!(cp.plan.target_nodes, 50, "what is newer stays");
}

#[test]
fn a_member_keeps_the_timing_it_was_given() {
    let timing = MembershipConfig {
        suspect_after_ms: 10,
        dead_after_ms: 20,
    };
    let mut cp = RaftControlPlane::new(
        "http://brain-0:8095".to_string(),
        Vec::new(),
        cfg(),
        false,
        Persisted::default(),
        None,
        Membership::new(timing),
        Placement::new(4),
        ScalePlan {
            target_nodes: 3,
            replication_factor: 3,
        },
    )
    .unwrap();
    let (store, mut disk) = (store(), None);
    elect_self(&mut cp, &store, &mut disk);
    assert!(propose(&mut cp, scale(9), &store, &mut disk));
    cp.membership.heartbeat(&"a".to_string(), 0, report());
    assert!(cp.membership.sweep(19).is_empty());
    assert_eq!(cp.membership.sweep(20).len(), 1);
}

fn report() -> HeartbeatReport {
    HeartbeatReport {
        address: "10.0.0.1:8090".to_string(),
        cloud_provider: String::new(),
        region: String::new(),
        cluster_id: String::new(),
        failure_domain: "x".to_string(),
        hosted_shards: vec![],
        leading_shards: vec![],
        seq: 0,
    }
}

fn batch(from: u64, upto: u64, nodes: u32) -> Drain {
    Drain::new(
        Ready {
            persist: None,
            restore: None,
            applied_from: from,
            applied_upto: upto,
            messages: Vec::new(),
            committed: vec![(upto, scale(nodes))],
        },
        None,
    )
}

#[test]
fn committed_batches_apply_in_log_order_even_when_drains_race() {
    let mut cp = member(&[], false, Persisted::default());

    // Deliver the NEWER batch (entry 3) first; it must wait until the older
    // work has been applied.
    let mut racer = batch(2, 3, 20);
    assert!(matches!(
        cp.advance(&mut racer, DrainEvent::Proceed),
        DrainAction::Wait
    ));
    assert!(matches!(
        cp.advance(&mut racer, DrainEvent::Proceed),
        DrainAction::Wait
    ));
    assert_eq!(
        cp.plan.target_nodes, 3,
        "the out-of-order batch must not have applied yet"
    );

    // Entry 1 carries a command; entry 2 is a leader no-op (empty committed,
    // but applied_upto still advances — it must move the watermark, or the
    // racer above would wait forever).
    let mut first = batch(0, 1, 10);
    assert!(matches!(
        cp.advance(&mut first, DrainEvent::Proceed),
        DrainAction::Finish(None)
    ));
    assert_eq!(cp.plan.target_nodes, 10);
    let mut noop = Drain::new(
        Ready {
            persist: None,
            restore: None,
            applied_from: 1,
            applied_upto: 2,
            messages: Vec::new(),
            committed: Vec::new(),
        },
        None,
    );
    assert!(matches!(
        cp.advance(&mut noop, DrainEvent::Proceed),
        DrainAction::Finish(None)
    ));
    assert!(matches!(
        cp.advance(&mut racer, DrainEvent::Proceed),
        DrainAction::Finish(None)
    ));
    assert_eq!(
        cp.plan.target_nodes, 20,
        "the newest committed batch must win once all have applied in order"
    );

    // A batch that is already covered changes nothing.
    let mut late = batch(0, 2, 77);
    assert!(matches!(
        cp.advance(&mut late, DrainEvent::Proceed),
        DrainAction::Finish(None)
    ));
    assert_eq!(cp.plan.target_nodes, 20);
}

fn two_peers() -> Vec<String> {
    vec![
        "http://brain-1:8095".to_string(),
        "http://brain-2:8095".to_string(),
    ]
}

/// Drives a member to leadership with no live transport: ticks until it
/// campaigns, then hands it its peers' grants directly.
fn elect_with_peer_grants(cp: &mut RaftControlPlane, peers: &[String], store: &RaftStore) {
    let mut disk = None;
    for _ in 0..40 {
        let drain = cp.tick().unwrap();
        run(cp, drain, store, &mut disk).unwrap();
        for pre_vote in [true, false] {
            for peer in peers {
                let resp = RaftMessage::RequestVoteResp(RequestVoteResp {
                    term: cp.term(),
                    granted: true,
                    pre_vote,
                });
                let drain = cp.step(peer.clone(), resp, false).unwrap();
                run(cp, drain, store, &mut disk).unwrap();
                if cp.is_leader() {
                    return;
                }
            }
        }
    }
    panic!("member did not reach leadership");
}

#[test]
fn a_leader_without_a_quorum_does_not_acknowledge_an_uncommitted_write() {
    let peers = two_peers();
    let store = store();
    let mut disk = None;
    let mut cp = member(&peers, false, Persisted::default());
    elect_with_peer_grants(&mut cp, &peers, &store);
    assert!(cp.is_leader());

    let (index, term, drain) = cp.propose(scale(42)).unwrap();
    run(&mut cp, drain, &store, &mut disk).unwrap();
    assert_eq!(cp.commit_outcome(index, term, false), None, "it may still be committed");
    assert_eq!(
        cp.commit_outcome(index, term, true),
        Some(false),
        "an entry no quorum accepted must not be acknowledged"
    );
    assert_eq!(
        cp.plan.target_nodes, 3,
        "and it must not have been applied to the state machine"
    );
}

#[test]
fn propose_returns_true_as_soon_as_a_quorum_acks_the_entry() {
    let peers = two_peers();
    let store = store();
    let mut disk = None;
    let mut cp = member(&peers, false, Persisted::default());
    elect_with_peer_grants(&mut cp, &peers, &store);

    let (index, term, drain) = cp.propose(scale(8)).unwrap();
    run(&mut cp, drain, &store, &mut disk).unwrap();
    assert_eq!(cp.commit_outcome(index, term, false), None);
    // A peer acks everything the leader has.
    let ack = RaftMessage::AppendEntriesResp(AppendEntriesResp {
        term: cp.term(),
        success: true,
        match_index: cp.base_index() + cp.log_len() as u64,
    });
    let drain = cp.step(peers[0].clone(), ack, false).unwrap();
    run(&mut cp, drain, &store, &mut disk).unwrap();
    assert_eq!(
        cp.commit_outcome(index, term, false),
        Some(true),
        "a quorum-acked entry is acknowledged"
    );
    assert_eq!(cp.plan.target_nodes, 8, "and applied");
}

#[test]
fn a_deposed_leader_reports_failure() {
    let peers = two_peers();
    let store = store();
    let mut disk = None;
    let mut cp = member(&peers, false, Persisted::default());
    elect_with_peer_grants(&mut cp, &peers, &store);
    let (index, term, drain) = cp.propose(scale(8)).unwrap();
    run(&mut cp, drain, &store, &mut disk).unwrap();
    let beat = RaftMessage::AppendEntries(AppendEntriesReq {
        term: term + 1,
        leader_id: peers[0].clone(),
        prev_log_index: 0,
        prev_log_term: 0,
        entries: Vec::new(),
        leader_commit: 0,
    });
    let drain = cp.step(peers[0].clone(), beat, true).unwrap();
    let reply = run(&mut cp, drain, &store, &mut disk).unwrap();
    assert!(append_reply(reply, 0).success);
    assert_eq!(cp.commit_outcome(index, term, false), Some(false));
    assert_eq!(cp.leader_addr().as_deref(), Some("http://brain-1:8095"));
}

fn compacted(snapshot: &[u8]) -> Persisted {
    Persisted {
        current_term: 3,
        voted_for: None,
        commit_index: 5,
        log: Vec::new(),
        base_index: 5,
        base_term: 3,
        snapshot: Some(snapshot.to_vec()),
    }
}

#[test]
fn boot_restores_the_state_machine_from_the_wal_snapshot() {
    let cp = member(&[], false, compacted(b"17"));
    assert_eq!(
        cp.plan.target_nodes, 17,
        "scale plan folded back from the WAL snapshot at construction"
    );
}

#[test]
fn boot_with_a_corrupt_wal_snapshot_fails_closed() {
    assert!(RaftControlPlane::new(
        "http://brain-0:8095".to_string(),
        vec![],
        cfg(),
        false,
        compacted(b"not json"),
        None,
        Membership::new(MembershipConfig::default()),
        Placement::new(4),
        ScalePlan {
            target_nodes: 3,
            replication_factor: 3,
        },
    )
    .is_none());
}

#[test]
fn an_installed_snapshot_is_decoded_before_it_counts() {
    let peers = two_peers();
    let store = store();
    let mut disk = None;
    let install = |data: Vec<u8>| {
        RaftMessage::InstallSnapshot(InstallSnapshotReq {
            term: 2,
            leader_id: "http://brain-1:8095".to_string(),
            last_included_index: 6,
            last_included_term: 2,
            data,
        })
    };
    let mut cp = member(&peers, true, Persisted::default());
    cp.placement.assign(ShardAssignment {
        shard_id: 1,
        replicas: vec!["old".to_string()],
        preferred_leader: None,
        preferred_region: None,
        preferred_cloud_provider: None,
    });
    let drain = cp
        .step(peers[0].clone(), install(vec![0, 0, 0, 33]), true)
        .unwrap();
    let reply = run(&mut cp, drain, &store, &mut disk).unwrap();
    let reply = install_reply(reply, 0);
    assert!(reply.success);
    assert_eq!(reply.last_included_index, 6);
    assert_eq!(cp.plan.target_nodes, 33);
    assert!(cp.placement.snapshot().is_empty(), "the snapshot replaces everything");
    assert_eq!(disk.unwrap().base_index, 6);

    let mut disk = None;
    let mut cp = member(&peers, true, Persisted::default());
    let drain = cp.step(peers[0].clone(), install(vec![1]), true).unwrap();
    assert!(run(&mut cp, drain, &store, &mut disk).is_err());
    assert!(!cp.is_available(), "a snapshot that cannot be read fails closed");
}

#[test]
fn only_the_exact_bearer_secret_is_let_in() {
    let secret = RaftSecret::parse(Some("s3cret".to_string())).unwrap();
    assert!(authorize(Some("Bearer s3cret"), &secret));
    for bad in [
        None,
        Some(""),
        Some("s3cret"),
        Some("Bearer "),
        Some("bearer s3cret"),
        Some("Bearer s3cre7"),
        Some("Bearer s3cret "),
        Some("Bearer s3cret-extra"),
        Some("Basic s3cret"),
    ] {
        assert!(!authorize(bad, &secret), "{bad:?}");
    }
    assert_eq!(
        RaftSecret::parse(None).unwrap_err().message(),
        "FIDUCIA_BRAIN_RAFT_SECRET is required when FIDUCIA_BRAIN_PEERS enables the peer Raft plane"
    );
}

#[test]
fn a_member_without_an_answer_refuses() {
    assert_eq!(
        vote_reply(None, 4, true),
        RequestVoteResp {
            term: 4,
            granted: false,
            pre_vote: true
        }
    );
    assert_eq!(
        append_reply(None, 4),
        AppendEntriesResp {
            term: 4,
            success: false,
            match_index: 0
        }
    );
    assert_eq!(
        install_reply(None, 4),
        InstallSnapshotResp {
            term: 4,
            success: false,
            last_included_index: 0
        }
    );
    let vote = RaftMessage::RequestVote(RequestVoteReq {
        term: 1,
        candidate_id: "a".to_string(),
        last_log_index: 0,
        last_log_term: 0,
        pre_vote: false,
    });
    assert_eq!(rpc_of(&vote), Some(Rpc::Vote));
    assert_eq!(
        rpc_of(&RaftMessage::RequestVoteResp(vote_reply(None, 1, false))),
        None
    );
}

#[test]
fn seeds_differ_between_members() {
    assert_eq!(seed_from(""), 0xcbf2_9ce4_8422_2325);
    assert_eq!(seed_from("a"), 0xaf63_dc4c_8601_ec8c);
    assert_ne!(seed_from("http://brain-0:8095"), seed_from("http://brain-1:8095"));
}
