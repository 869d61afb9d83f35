use fiducia_brain::cluster::{apply_command, Command, ControlPlane, LocalControlPlane};
use fiducia_brain::membership::{Membership, MembershipConfig};
use fiducia_brain::model::{HeartbeatReport, ScalePlan, ShardAssignment};
use fiducia_brain::placement::Placement;

fn local() -> LocalControlPlane {
    LocalControlPlane::new(
        Membership::new(MembershipConfig::default()),
        Placement::new(4),
        ScalePlan {
            target_nodes: 3,
            replication_factor: 3,
        },
    )
}

fn heartbeat() -> HeartbeatReport {
    HeartbeatReport {
        address: "10.0.0.1:8090".to_owned(),
        ..HeartbeatReport::default()
    }
}

fn assignment(shard: u32, replicas: &[&str], leader: &str) -> ShardAssignment {
    ShardAssignment {
        shard_id: shard,
        replicas: replicas.iter().map(|r| r.to_string()).collect(),
        preferred_leader: Some(leader.to_string()),
        preferred_region: None,
        preferred_cloud_provider: None,
    }
}

#[test]
fn local_control_plane_is_always_leader_and_applies_on_propose() {
    let mut cp = local();
    assert!(cp.is_leader());
    assert!(cp.is_available());
    assert_eq!(cp.leader_addr(), None);

    cp.propose(Command::AssignShard(assignment(0, &["a", "b"], "a")));
    assert_eq!(cp.placement.get(0).unwrap().replicas, vec!["a", "b"]);

    cp.propose(Command::SetScalePlan(ScalePlan {
        target_nodes: 5,
        replication_factor: 3,
    }));
    assert_eq!(cp.plan.target_nodes, 5);
}

#[test]
fn forget_node_is_rejected_while_authoritative_placement_references_it() {
    let mut cp = local();
    let node = "a".to_owned();
    cp.membership.heartbeat(&node, 0, heartbeat());
    assert!(cp.membership.drain(&node));
    cp.placement.assign(assignment(0, &["a", "b", "c"], "b"));

    cp.propose(Command::ForgetNode(node.clone()));

    assert!(
        cp.membership
            .snapshot()
            .iter()
            .any(|known| known.node_id == node),
        "a stale ForgetNode must not orphan an authoritative assignment"
    );
}

#[test]
fn forget_node_succeeds_after_last_assignment_is_removed() {
    let mut cp = local();
    let node = "a".to_owned();
    cp.membership.heartbeat(&node, 0, heartbeat());
    assert!(cp.membership.drain(&node));
    cp.placement.assign(assignment(0, &["b", "c", "d"], "b"));

    cp.propose(Command::ForgetNode(node.clone()));

    assert!(
        cp.membership
            .snapshot()
            .iter()
            .all(|known| known.node_id != node),
        "a drained node is forgettable once placement no longer requires it"
    );
}

#[test]
fn a_repeated_removal_changes_nothing() {
    let mut membership = Membership::new(MembershipConfig::default());
    let mut placement = Placement::new(4);
    let mut plan = ScalePlan {
        target_nodes: 3,
        replication_factor: 3,
    };
    membership.heartbeat(&"a".to_owned(), 0, heartbeat());
    membership.heartbeat(&"b".to_owned(), 0, heartbeat());
    for _ in 0..2 {
        apply_command(
            &mut membership,
            &mut placement,
            &mut plan,
            Command::ForgetNode("a".to_owned()),
        );
        let left = membership.snapshot();
        assert_eq!(left.len(), 1);
        assert_eq!(left[0].node_id, "b");
    }
    assert_eq!(placement.generation(), 0, "a removal is no new placement");
}

#[test]
fn assignments_move_the_generation_and_the_latest_counts() {
    let mut cp = local();
    cp.propose(Command::AssignShard(assignment(2, &["a"], "a")));
    cp.propose(Command::AssignShard(assignment(2, &["b"], "b")));
    assert_eq!(cp.placement.generation(), 2);
    assert_eq!(cp.placement.get(2).unwrap().replicas, vec!["b"]);
    assert!(cp.placement.get(1).is_none());
    assert_eq!(cp.placement.snapshot().len(), 1);
    assert_eq!(cp.placement.shard_count(), 4);

    cp.placement.restore_from(vec![
        assignment(3, &["c"], "c"),
        assignment(1, &["d"], "d"),
        assignment(3, &["e"], "e"),
    ]);
    let all = cp.placement.snapshot();
    assert_eq!(all.len(), 2, "the whole map is replaced");
    assert_eq!(all[0].shard_id, 1);
    assert_eq!(all[1].shard_id, 3);
    assert_eq!(all[1].replicas, vec!["e"], "a later entry counts");
    assert_eq!(cp.placement.generation(), 3);
}
