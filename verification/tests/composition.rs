use fiducia_brain::composition::{
    AckOutcome, BrainPublisher, BrainRole, ModelError, NodeId, NodeReplica, PlacementSnapshot,
    ShardId, StageOutcome, WriteFence,
};
use std::collections::{BTreeMap, BTreeSet};

fn assignments(entries: &[(ShardId, &[NodeId])]) -> BTreeMap<ShardId, Vec<NodeId>> {
    entries
        .iter()
        .map(|(shard, nodes)| (*shard, nodes.to_vec()))
        .collect()
}

fn activate_all(node: &mut NodeReplica, snapshot: PlacementSnapshot) {
    let generation = snapshot.generation;
    let assigned = snapshot.shards_for(1);
    node.stage(snapshot).unwrap();
    for shard in assigned {
        node.acknowledge_shard(generation, shard).unwrap();
    }
    node.activate(generation).unwrap();
}

#[test]
fn follower_cannot_publish_or_issue_write_authority() {
    let mut brain = BrainPublisher::new(BrainRole::Follower, 1, 3).unwrap();
    assert_eq!(
        brain.publish_next(assignments(&[(1, &[1, 2, 3])])),
        Err(ModelError::NotLeader)
    );
    assert_eq!(brain.write_fence(3), Err(ModelError::NotLeader));
}

#[test]
fn publication_and_commit_generations_are_strictly_sequential() {
    let mut brain = BrainPublisher::new(BrainRole::Leader, 1, 0).unwrap();
    let first = brain.publish_next(assignments(&[(1, &[1, 2, 3])])).unwrap();
    let second = brain.publish_next(assignments(&[(1, &[2, 3, 4])])).unwrap();
    assert_eq!(first.generation, 1);
    assert_eq!(second.generation, 2);
    assert!(matches!(
        brain.commit(&second),
        Err(ModelError::NonSequentialCommit {
            expected: 1,
            provided: 2
        })
    ));
    brain.commit(&first).unwrap();
    brain.commit(&second).unwrap();
    assert_eq!(brain.write_fence(2).unwrap().generation, 2);
}

#[test]
fn malformed_replica_sets_fail_before_publication() {
    assert!(matches!(
        PlacementSnapshot::new(1, 1, assignments(&[(7, &[])])),
        Err(ModelError::EmptyReplicaSet(7))
    ));
    assert!(matches!(
        PlacementSnapshot::new(1, 1, assignments(&[(7, &[2, 2])])),
        Err(ModelError::DuplicateReplica { shard: 7, node: 2 })
    ));
}

#[test]
fn duplicate_delivery_is_idempotent_but_same_generation_conflict_is_rejected() {
    let snapshot = PlacementSnapshot::new(1, 1, assignments(&[(1, &[1]), (2, &[1])])).unwrap();
    let mut node = NodeReplica::new(1);
    assert_eq!(node.stage(snapshot.clone()).unwrap(), StageOutcome::Staged);
    assert_eq!(
        node.stage(snapshot.clone()).unwrap(),
        StageOutcome::DuplicateStaged
    );

    let conflicting =
        PlacementSnapshot::new(1, 1, assignments(&[(1, &[1]), (2, &[2])])).unwrap();
    assert_eq!(
        node.stage(conflicting),
        Err(ModelError::ConflictingGeneration(1))
    );
}

#[test]
fn partial_generation_cannot_activate_or_serve_writes() {
    let snapshot = PlacementSnapshot::new(1, 1, assignments(&[(1, &[1]), (2, &[1])])).unwrap();
    let mut node = NodeReplica::new(1);
    node.stage(snapshot).unwrap();
    node.acknowledge_shard(1, 1).unwrap();

    assert_eq!(
        node.activate(1),
        Err(ModelError::PartialActivation(vec![2]))
    );
    assert!(!node.accepts_write(
        WriteFence {
            term: 1,
            generation: 1
        },
        1
    ));
}

#[test]
fn active_generation_requires_an_exact_committed_write_fence() {
    let mut brain = BrainPublisher::new(BrainRole::Leader, 1, 0).unwrap();
    let snapshot = brain
        .publish_next(assignments(&[(1, &[1]), (2, &[1, 2])]))
        .unwrap();
    assert!(matches!(
        brain.write_fence(1),
        Err(ModelError::UncommittedGeneration { .. })
    ));
    brain.commit(&snapshot).unwrap();

    let mut node = NodeReplica::new(1);
    activate_all(&mut node, snapshot);
    let fence = brain.write_fence(1).unwrap();
    node.install_write_fence(fence).unwrap();

    assert!(node.accepts_write(fence, 1));
    assert!(node.accepts_write(fence, 2));
    assert!(!node.accepts_write(
        WriteFence {
            term: 1,
            generation: 2
        },
        1
    ));
    assert!(!node.accepts_write(fence, 9));
}

#[test]
fn newer_generation_staging_revokes_old_write_authority_until_activation() {
    let mut brain = BrainPublisher::new(BrainRole::Leader, 1, 0).unwrap();
    let first = brain
        .publish_next(assignments(&[(1, &[1]), (2, &[1])]))
        .unwrap();
    brain.commit(&first).unwrap();
    let first_fence = brain.write_fence(1).unwrap();

    let mut node = NodeReplica::new(1);
    activate_all(&mut node, first);
    node.install_write_fence(first_fence).unwrap();
    assert!(node.accepts_write(first_fence, 1));

    let second = brain
        .publish_next(assignments(&[(1, &[1]), (2, &[1]), (3, &[1])]))
        .unwrap();
    node.stage(second).unwrap();
    assert_eq!(node.active_generation(), Some(1));
    assert_eq!(node.current_write_fence(), None);
    assert!(!node.accepts_write(first_fence, 1));
}

#[test]
fn leader_failover_fences_old_term_before_reauthorizing_same_generation() {
    let mut original = BrainPublisher::new(BrainRole::Leader, 1, 0).unwrap();
    let snapshot = original
        .publish_next(assignments(&[(1, &[1, 2, 3])]))
        .unwrap();
    original.commit(&snapshot).unwrap();
    let old_fence = original.write_fence(1).unwrap();

    let mut node = NodeReplica::new(1);
    activate_all(&mut node, snapshot);
    node.install_write_fence(old_fence).unwrap();
    assert!(node.accepts_write(old_fence, 1));

    let mut replacement = BrainPublisher::new(BrainRole::Follower, 1, 1).unwrap();
    replacement.become_leader(2).unwrap();
    node.observe_term(2).unwrap();
    assert!(!node.accepts_write(old_fence, 1));

    let new_fence = replacement.write_fence(1).unwrap();
    node.install_write_fence(new_fence).unwrap();
    assert!(node.accepts_write(new_fence, 1));
    assert!(!node.accepts_write(old_fence, 1));
}

#[test]
fn restart_preserves_generation_but_loses_volatile_ack_and_write_authority() {
    let first = PlacementSnapshot::new(1, 1, assignments(&[(1, &[1]), (2, &[1])])).unwrap();
    let second =
        PlacementSnapshot::new(1, 2, assignments(&[(1, &[1]), (2, &[1]), (3, &[1])])).unwrap();
    let mut node = NodeReplica::new(1);
    activate_all(&mut node, first);
    node.install_write_fence(WriteFence {
        term: 1,
        generation: 1,
    })
    .unwrap();
    node.stage(second).unwrap();
    node.acknowledge_shard(2, 1).unwrap();
    node.restart();

    assert_eq!(node.active_generation(), Some(1));
    assert_eq!(node.staged_generation(), Some(2));
    assert!(node.acknowledged_shards().is_empty());
    assert_eq!(node.current_write_fence(), None);
    assert!(matches!(
        node.activate(2),
        Err(ModelError::PartialActivation(_))
    ));
}

#[test]
fn newer_staged_generation_rejects_delayed_snapshot_and_ack() {
    let second = PlacementSnapshot::new(1, 2, assignments(&[(1, &[1]), (2, &[1])])).unwrap();
    let third = PlacementSnapshot::new(1, 3, assignments(&[(1, &[1]), (3, &[1])])).unwrap();
    let mut node = NodeReplica::new(1);
    node.stage(second.clone()).unwrap();
    node.stage(third).unwrap();

    assert!(matches!(
        node.stage(second),
        Err(ModelError::StaleGeneration {
            active: 3,
            provided: 2
        })
    ));
    assert_eq!(
        node.acknowledge_shard(2, 1),
        Err(ModelError::AckGenerationMismatch {
            staged: 3,
            provided: 2
        })
    );
}

#[test]
fn removal_generation_deactivates_old_shards_before_new_authority() {
    let first = PlacementSnapshot::new(1, 1, assignments(&[(5, &[1, 2])])).unwrap();
    let removal = PlacementSnapshot::new(1, 2, assignments(&[(5, &[2, 3])])).unwrap();
    let mut node = NodeReplica::new(1);
    activate_all(&mut node, first);
    node.stage(removal).unwrap();
    node.activate(2).unwrap();
    node.install_write_fence(WriteFence {
        term: 1,
        generation: 2,
    })
    .unwrap();

    assert!(node.active_shards().is_empty());
    assert!(!node.accepts_write(
        WriteFence {
            term: 1,
            generation: 2
        },
        5
    ));
}

#[test]
fn acknowledgement_order_does_not_change_activation_result() {
    let snapshot =
        PlacementSnapshot::new(4, 9, assignments(&[(1, &[7]), (2, &[7]), (3, &[7])])).unwrap();
    let orders = [
        [1, 2, 3],
        [1, 3, 2],
        [2, 1, 3],
        [2, 3, 1],
        [3, 1, 2],
        [3, 2, 1],
    ];

    for order in orders {
        let mut node = NodeReplica::new(7);
        node.stage(snapshot.clone()).unwrap();
        for shard in order {
            node.acknowledge_shard(9, shard).unwrap();
        }
        node.activate(9).unwrap();
        assert_eq!(node.active_shards(), BTreeSet::from([1, 2, 3]));
    }
}

#[test]
fn same_generation_snapshot_can_be_reauthorized_in_a_higher_term() {
    let snapshot = PlacementSnapshot::new(1, 1, assignments(&[(1, &[1])])).unwrap();
    let mut node = NodeReplica::new(1);
    activate_all(&mut node, snapshot.clone());
    node.install_write_fence(WriteFence {
        term: 1,
        generation: 1,
    })
    .unwrap();

    let higher_term = PlacementSnapshot::new(2, 1, assignments(&[(1, &[1])])).unwrap();
    assert_eq!(
        node.stage(higher_term).unwrap(),
        StageOutcome::DuplicateActive
    );
    assert_eq!(node.current_write_fence(), None);
    node.install_write_fence(WriteFence {
        term: 2,
        generation: 1,
    })
    .unwrap();
    assert!(node.accepts_write(
        WriteFence {
            term: 2,
            generation: 1
        },
        1
    ));
}

#[test]
fn snapshots_answer_for_shards_and_nodes() {
    let s = PlacementSnapshot::new(3, 4, assignments(&[(1, &[1, 2]), (2, &[2, 3])])).unwrap();
    assert_eq!(s.term, 3);
    assert_eq!(s.generation, 4);
    assert_eq!(s.replicas(1), Some(&BTreeSet::from([1, 2])));
    assert_eq!(s.replicas(9), None);
    assert_eq!(s.shards_for(2), BTreeSet::from([1, 2]));
    assert_eq!(s.shards_for(3), BTreeSet::from([2]));
    assert!(s.shards_for(7).is_empty());
    assert_eq!(s.clone(), s);
}

#[test]
fn the_first_fault_is_reported() {
    assert_eq!(
        PlacementSnapshot::new(0, 0, BTreeMap::new()),
        Err(ModelError::InvalidTerm)
    );
    assert_eq!(
        PlacementSnapshot::new(1, 0, BTreeMap::new()),
        Err(ModelError::InvalidGeneration)
    );
    assert_eq!(
        PlacementSnapshot::new(1, 1, BTreeMap::new()),
        Err(ModelError::EmptyPlacement)
    );
    assert_eq!(
        PlacementSnapshot::new(1, 1, assignments(&[(9, &[]), (4, &[5, 6, 5, 6]), (3, &[1])])),
        Err(ModelError::DuplicateReplica { shard: 4, node: 5 })
    );
}

#[test]
fn publishers_count_terms_and_generations() {
    assert_eq!(
        BrainPublisher::new(BrainRole::Leader, 0, 0),
        Err(ModelError::InvalidTerm)
    );
    let mut p = BrainPublisher::new(BrainRole::Follower, 2, 5).unwrap();
    assert_eq!(p.role(), BrainRole::Follower);
    assert_eq!(p.term(), 2);
    assert_eq!(p.committed_generation(), 5);
    assert_eq!(
        p.become_leader(2),
        Err(ModelError::StaleTerm {
            observed: 2,
            provided: 2
        })
    );
    p.become_leader(3).unwrap();
    assert_eq!(p.role(), BrainRole::Leader);
    let s = p.publish_next(assignments(&[(1, &[1])])).unwrap();
    assert_eq!(s.generation, 6);
    assert_eq!(s.term, 3);
    assert_eq!(
        p.step_down(2),
        Err(ModelError::StaleTerm {
            observed: 3,
            provided: 2
        })
    );
    p.step_down(3).unwrap();
    assert_eq!(p.commit(&s), Err(ModelError::NotLeader));
    p.become_leader(4).unwrap();
    assert_eq!(
        p.commit(&s),
        Err(ModelError::StaleTerm {
            observed: 4,
            provided: 3
        })
    );
    let unknown = PlacementSnapshot::new(4, 6, assignments(&[(1, &[1])])).unwrap();
    assert_eq!(
        p.commit(&unknown),
        Err(ModelError::UnknownPublishedGeneration(6))
    );
    let published = p.publish_next(assignments(&[(1, &[2])])).unwrap();
    assert_eq!(p.commit(&unknown), Err(ModelError::ConflictingGeneration(6)));
    p.commit(&published).unwrap();
    p.commit(&published).unwrap();
    assert_eq!(p.committed_generation(), 6);
    assert_eq!(
        p.write_fence(5),
        Err(ModelError::UncommittedGeneration {
            committed: 6,
            requested: 5
        })
    );
    let mut last = BrainPublisher::new(BrainRole::Leader, 1, u64::MAX).unwrap();
    assert_eq!(
        last.publish_next(assignments(&[(1, &[1])])),
        Err(ModelError::GenerationOverflow)
    );
}

#[test]
fn nodes_refuse_what_does_not_belong() {
    let mut node = NodeReplica::new(1);
    assert_eq!(node.observe_term(0), Err(ModelError::InvalidTerm));
    assert_eq!(
        node.acknowledge_shard(1, 1),
        Err(ModelError::NoStagedPlacement)
    );
    assert_eq!(node.activate(1), Err(ModelError::NoStagedPlacement));
    node.observe_term(3).unwrap();
    assert_eq!(node.observed_term(), 3);
    assert_eq!(
        node.observe_term(2),
        Err(ModelError::StaleTerm {
            observed: 3,
            provided: 2
        })
    );
    assert_eq!(
        node.install_write_fence(WriteFence {
            term: 3,
            generation: 1
        }),
        Err(ModelError::NoActivePlacement)
    );
    let s = PlacementSnapshot::new(3, 2, assignments(&[(1, &[1]), (2, &[2])])).unwrap();
    node.stage(s).unwrap();
    assert_eq!(
        node.acknowledge_shard(2, 2),
        Err(ModelError::ShardNotAssigned(2))
    );
    assert_eq!(node.acknowledge_shard(2, 1), Ok(AckOutcome::Recorded));
    assert_eq!(node.acknowledge_shard(2, 1), Ok(AckOutcome::Replay));
    assert_eq!(node.acknowledged_shards(), BTreeSet::from([1]));
    assert_eq!(
        node.activate(1),
        Err(ModelError::AckGenerationMismatch {
            staged: 2,
            provided: 1
        })
    );
    node.activate(2).unwrap();
    assert_eq!(node.active_shards(), BTreeSet::from([1]));
    assert_eq!(
        node.install_write_fence(WriteFence {
            term: 3,
            generation: 1
        }),
        Err(ModelError::AuthorityMismatch {
            active: 2,
            requested: 1
        })
    );
    let other = PlacementSnapshot::new(3, 2, assignments(&[(7, &[1])])).unwrap();
    assert_eq!(node.stage(other), Err(ModelError::ConflictingGeneration(2)));
}

#[test]
fn no_write_is_admitted_while_a_newer_generation_is_staged() {
    let first = PlacementSnapshot::new(1, 1, assignments(&[(1, &[1])])).unwrap();
    let second = PlacementSnapshot::new(1, 2, assignments(&[(1, &[1])])).unwrap();
    let fence = WriteFence {
        term: 1,
        generation: 1,
    };
    let mut node = NodeReplica::new(1);
    activate_all(&mut node, first);
    node.stage(second).unwrap();
    node.install_write_fence(fence).unwrap();
    assert!(!node.accepts_write(fence, 1));
    node.acknowledge_shard(2, 1).unwrap();
    node.activate(2).unwrap();
    assert!(!node.accepts_write(fence, 1));
    let fence = WriteFence {
        term: 1,
        generation: 2,
    };
    node.install_write_fence(fence).unwrap();
    assert!(node.accepts_write(fence, 1));
}

#[test]
fn a_newer_term_drops_what_an_older_leader_staged() {
    let mut node = NodeReplica::new(1);
    node.stage(PlacementSnapshot::new(1, 5, assignments(&[(1, &[1])])).unwrap())
        .unwrap();
    node.observe_term(2).unwrap();
    assert_eq!(node.staged_generation(), None);
    assert_eq!(
        node.stage(PlacementSnapshot::new(1, 6, assignments(&[(1, &[1])])).unwrap()),
        Err(ModelError::StaleTerm {
            observed: 2,
            provided: 1
        })
    );
}

#[test]
fn refusals_say_what_is_wrong() {
    let cases = [
        (ModelError::InvalidTerm, "term must be non-zero"),
        (ModelError::InvalidGeneration, "generation must be non-zero"),
        (ModelError::NotLeader, "only the leader may publish or authorize"),
        (ModelError::EmptyPlacement, "placement must contain at least one shard"),
        (ModelError::EmptyReplicaSet(7), "shard 7 has no replicas"),
        (
            ModelError::DuplicateReplica { shard: 7, node: 12 },
            "shard 7 repeats node 12",
        ),
        (ModelError::GenerationOverflow, "placement generation overflow"),
        (
            ModelError::UnknownPublishedGeneration(3),
            "generation 3 was not published in this term",
        ),
        (
            ModelError::ConflictingGeneration(3),
            "generation 3 has conflicting contents",
        ),
        (
            ModelError::NonSequentialCommit {
                expected: 1,
                provided: 2,
            },
            "commit must be sequential: expected 1, provided 2",
        ),
        (
            ModelError::UncommittedGeneration {
                committed: 1,
                requested: 2,
            },
            "write authority requires committed generation 1, requested 2",
        ),
        (
            ModelError::StaleTerm {
                observed: 10,
                provided: 9,
            },
            "stale term: observed 10, provided 9",
        ),
        (
            ModelError::StaleGeneration {
                active: 10,
                provided: 9,
            },
            "stale generation: active/staged 10, provided 9",
        ),
        (ModelError::NoStagedPlacement, "no placement is staged"),
        (
            ModelError::AckGenerationMismatch {
                staged: 10,
                provided: 9,
            },
            "ack generation mismatch: staged 10, provided 9",
        ),
        (
            ModelError::ShardNotAssigned(65535),
            "shard 65535 is not assigned to this node",
        ),
        (
            ModelError::PartialActivation(vec![1, 2]),
            "cannot activate before 2 shard acknowledgement(s)",
        ),
        (ModelError::NoActivePlacement, "no placement is active"),
        (
            ModelError::AuthorityMismatch {
                active: 1,
                requested: 2,
            },
            "write authority generation mismatch: active 1, requested 2",
        ),
    ];
    for (error, text) in cases {
        assert_eq!(error.message(), text);
    }
}
