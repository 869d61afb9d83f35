use fiducia_brain::cluster::{Command, LocalControlPlane};
use fiducia_brain::membership::{Membership, MembershipConfig};
use fiducia_brain::model::{HeartbeatReport, PlacementPolicy, ScalePlan, ShardAssignment};
use fiducia_brain::oracle::NullOracle;
use fiducia_brain::placement::Placement;
use fiducia_brain::scheduler::{reconcile, reconcile_commands, tick};
use std::collections::{HashMap, HashSet};

fn hb(domain: &str) -> HeartbeatReport {
    HeartbeatReport {
        address: "10.0.0.1:8090".to_string(),
        cloud_provider: String::new(),
        region: String::new(),
        cluster_id: String::new(),
        failure_domain: domain.to_string(),
        hosted_shards: vec![],
        leading_shards: vec![],
        seq: 0,
    }
}
fn hb_cloud(cloud_provider: &str, region: &str, cluster_id: &str) -> HeartbeatReport {
    HeartbeatReport {
        address: "10.0.0.1:8090".to_string(),
        cloud_provider: cloud_provider.to_string(),
        region: region.to_string(),
        cluster_id: cluster_id.to_string(),
        failure_domain: String::new(),
        hosted_shards: vec![],
        leading_shards: vec![],
        seq: 0,
    }
}

fn scheduler(shard_count: u32, rf: u32) -> LocalControlPlane {
    LocalControlPlane::new(
        Membership::new(MembershipConfig::default()),
        Placement::new(shard_count),
        ScalePlan {
            target_nodes: 3,
            replication_factor: rf,
        },
    )
}

#[test]
fn reconcile_places_every_shard_at_rf_across_domains() {
    let mut s = scheduler(8, 3);
    s.membership.heartbeat(&"a".to_string(), 0, hb("gcp"));
    s.membership.heartbeat(&"b".to_string(), 0, hb("aws"));
    s.membership.heartbeat(&"c".to_string(), 0, hb("hetzner"));

    reconcile(&mut s);

    for shard in 0..8 {
        let a = s.placement.get(shard).expect("placed");
        assert_eq!(a.replicas.len(), 3, "shard {shard} at RF");
        assert!(a.preferred_leader.is_some());
    }
    // Replica load is spread evenly: 8 shards × 3 / 3 nodes = 8 each.
    let mut counts: HashMap<String, u32> = HashMap::new();
    for shard in 0..8 {
        for r in s.placement.get(shard).unwrap().replicas {
            *counts.entry(r).or_default() += 1;
        }
    }
    for (_, c) in counts {
        assert_eq!(c, 8, "even replica spread");
    }
}

#[test]
fn reconcile_keeps_healthy_observed_leader_as_preferred_leader() {
    let mut s = scheduler(1, 3);
    s.membership.heartbeat(
        &"a".to_string(),
        0,
        HeartbeatReport {
            leading_shards: vec![0],
            hosted_shards: vec![0],
            ..hb("gcp")
        },
    );
    s.membership.heartbeat(&"b".to_string(), 0, hb("aws"));
    s.membership.heartbeat(&"c".to_string(), 0, hb("hetzner"));

    reconcile(&mut s);

    let assignment = s.placement.get(0).expect("shard placed");
    assert_eq!(assignment.preferred_leader.as_deref(), Some("a"));
    assert!(assignment.replicas.contains(&"a".to_string()));
}

#[test]
fn drained_and_evacuated_node_is_forgotten_on_reconcile() {
    let mut s = scheduler(2, 2);
    for (id, dom) in [("a", "gcp"), ("b", "aws"), ("c", "hetzner")] {
        s.membership.heartbeat(&id.to_string(), 0, hb(dom));
    }
    reconcile(&mut s);

    // Operator drains "a"; it evacuates and reports hosting nothing.
    assert!(s.membership.drain(&"a".to_string()));
    s.membership.heartbeat(&"a".to_string(), 1, hb("gcp")); // hb() reports no hosted shards
    reconcile(&mut s);

    assert!(
        s.membership.snapshot().iter().all(|n| n.node_id != "a"),
        "a drained, fully-evacuated node is removed from membership"
    );
}

#[test]
fn holds_placement_when_membership_is_transiently_empty_after_failover() {
    let mut s = scheduler(2, 3);
    // Replicated placement exists (as if replayed from the Raft log onto a
    // freshly-elected leader)...
    for shard in 0..2 {
        s.placement.assign(ShardAssignment {
            shard_id: shard,
            replicas: vec!["a".to_string(), "b".to_string(), "c".to_string()],
            preferred_leader: Some("a".to_string()),
            preferred_region: None,
            preferred_cloud_provider: None,
        });
    }
    // ...but membership is still empty (the nodes haven't heartbeated to this
    // leader yet). Reconcile must NOT wipe the placement to empty.
    reconcile(&mut s);
    for shard in 0..2 {
        let asg = s.placement.get(shard).expect("placement held");
        assert_eq!(
            asg.replicas.len(),
            3,
            "shard {shard} placement held across the membership gap, not wiped"
        );
    }
}

#[test]
fn cold_started_brain_adopts_reported_hosting_instead_of_recomputing() {
    // Data plane was already running (nodes host shard 0, b leads it) before
    // the brain (re)started with an empty placement map. The reconcile must
    // ADOPT the observed layout, not churn the data by re-placing from scratch.
    let mut s = scheduler(1, 3);
    for (id, dom, leads) in [("a", "gcp", false), ("b", "aws", true), ("c", "hetzner", false)] {
        s.membership.heartbeat(
            &id.to_string(),
            0,
            HeartbeatReport {
                hosted_shards: vec![0],
                leading_shards: if leads { vec![0] } else { vec![] },
                ..hb(dom)
            },
        );
    }

    reconcile(&mut s);

    let a = s.placement.get(0).expect("placed");
    let got: HashSet<String> = a.replicas.into_iter().collect();
    assert_eq!(
        got,
        ["a", "b", "c"].iter().map(|s| s.to_string()).collect::<HashSet<_>>(),
        "keeps exactly the nodes that already host the shard"
    );
    assert_eq!(
        a.preferred_leader.as_deref(),
        Some("b"),
        "adopts the observed leader rather than picking a new one"
    );
}

#[test]
fn rf3_spreads_across_clouds_and_biases_leader_to_policy_region() {
    let mut s = scheduler(1, 3);
    s.membership.heartbeat(
        &"aws-us".to_string(),
        0,
        hb_cloud("aws", "us-east-1", "aws-prod"),
    );
    s.membership.heartbeat(
        &"gcp-us".to_string(),
        0,
        hb_cloud("gcp", "us-east-1", "gcp-prod"),
    );
    s.membership.heartbeat(
        &"hetzner-eu".to_string(),
        0,
        hb_cloud("hetzner", "nbg1", "hetzner-prod"),
    );
    s.placement.set_policy(PlacementPolicy {
        namespace: "tenant-a".to_string(),
        shard_id: 0,
        home_region: Some("us-east-1".to_string()),
        preferred_cloud_provider: None,
    });

    reconcile(&mut s);

    let assignment = s.placement.get(0).expect("shard placed");
    let nodes = s.membership.snapshot();
    let clouds: HashSet<String> = assignment
        .replicas
        .iter()
        .filter_map(|replica| {
            nodes
                .iter()
                .find(|node| &node.node_id == replica)
                .map(|node| node.cloud_provider.clone())
        })
        .collect();
    let clusters: HashSet<String> = assignment
        .replicas
        .iter()
        .filter_map(|replica| {
            nodes
                .iter()
                .find(|node| &node.node_id == replica)
                .map(|node| node.cluster_id.clone())
        })
        .collect();
    assert_eq!(assignment.replicas.len(), 3);
    assert_eq!(clouds.len(), 3, "one replica per cloud provider");
    assert_eq!(clusters.len(), 3, "one replica per Kubernetes cluster");

    let preferred = assignment.preferred_leader.as_deref().unwrap();
    let preferred_node = nodes
        .iter()
        .find(|node| node.node_id == preferred)
        .expect("preferred leader exists");
    assert_eq!(preferred_node.region, "us-east-1");
    assert_eq!(assignment.preferred_region.as_deref(), Some("us-east-1"));
}

#[test]
fn a_dead_node_is_evacuated_to_a_surviving_node_on_the_next_tick() {
    let mut s = scheduler(4, 3);
    for (id, dom) in [("a", "gcp"), ("b", "aws"), ("c", "hetzner"), ("d", "gcp")] {
        s.membership.heartbeat(&id.to_string(), 0, hb(dom));
    }
    reconcile(&mut s);

    // Kill node "a": stop heartbeating, and sweep past the dead timeout.
    for (id, dom) in [("b", "aws"), ("c", "hetzner"), ("d", "gcp")] {
        s.membership.heartbeat(&id.to_string(), 1_000_000, hb(dom));
    }
    s.membership.sweep(1_000_000);
    reconcile(&mut s);

    // No shard should still list the dead node, and all stay at RF.
    for shard in 0..4 {
        let a = s.placement.get(shard).unwrap();
        assert!(
            !a.replicas.contains(&"a".to_string()),
            "shard {shard} evacuated a"
        );
        assert_eq!(a.replicas.len(), 3, "shard {shard} restored to RF");
    }
}

#[test]
fn scale_up_rebalance_moves_some_replicas_to_a_new_node() {
    let mut s = scheduler(12, 3);
    s.plan.target_nodes = 4;
    s.membership.heartbeat(&"a".to_string(), 0, hb("gcp"));
    s.membership.heartbeat(&"b".to_string(), 0, hb("aws"));
    s.membership.heartbeat(&"c".to_string(), 0, hb("hetzner"));
    reconcile(&mut s);

    s.membership.heartbeat(&"d".to_string(), 100, hb("gcp"));
    reconcile(&mut s);

    let mut counts: HashMap<String, u32> = HashMap::new();
    for shard in 0..12 {
        let assignment = s.placement.get(shard).expect("placed");
        assert_eq!(assignment.replicas.len(), 3);
        for replica in assignment.replicas {
            *counts.entry(replica).or_default() += 1;
        }
    }
    assert!(
        counts.get("d").copied().unwrap_or(0) > 0,
        "new node should receive replicas during scale-up rebalance"
    );
    assert!(
        counts.get("a").copied().unwrap_or(0) < 12,
        "existing node in the same failure domain should shed some replicas"
    );
}

#[test]
fn target_nodes_excludes_lightest_nodes_from_future_placement() {
    let mut s = scheduler(6, 3);
    s.plan.target_nodes = 4;
    for (id, dom) in [("a", "gcp"), ("b", "aws"), ("c", "hetzner"), ("d", "gcp")] {
        s.membership.heartbeat(&id.to_string(), 0, hb(dom));
    }
    reconcile(&mut s);
    assert!(
        (0..6).any(|shard| s
            .placement
            .get(shard)
            .unwrap()
            .replicas
            .contains(&"d".to_string())),
        "fourth node participates before scale-down"
    );

    s.plan.target_nodes = 3;
    reconcile(&mut s);

    for shard in 0..6 {
        let assignment = s.placement.get(shard).unwrap();
        assert_eq!(assignment.replicas.len(), 3);
        assert!(
            !assignment.replicas.contains(&"d".to_string()),
            "lightest extra node should be evacuated from shard {shard}"
        );
    }
}

fn three_nodes(s: &mut LocalControlPlane) {
    for (id, dom) in [("a", "gcp"), ("b", "aws"), ("c", "hetzner")] {
        s.membership.heartbeat(&id.to_string(), 0, hb(dom));
    }
}

#[test]
fn a_settled_cluster_needs_no_commands() {
    let mut s = scheduler(8, 3);
    three_nodes(&mut s);
    reconcile(&mut s);
    let generation = s.placement.generation();
    assert!(reconcile_commands(&s.membership, &s.placement, &s.plan).is_empty());
    reconcile(&mut s);
    assert_eq!(s.placement.generation(), generation, "nothing to publish");
}

#[test]
fn degraded_capacity_does_not_shrink_a_placement() {
    let mut s = scheduler(2, 3);
    three_nodes(&mut s);
    reconcile(&mut s);
    for id in ["b", "c"] {
        s.membership.heartbeat(&id.to_string(), 1_000_000, hb("x"));
    }
    assert_eq!(s.membership.sweep(1_000_000), vec!["a"]);
    reconcile(&mut s);
    for shard in 0..2 {
        assert_eq!(s.placement.get(shard).unwrap().replicas.len(), 3);
    }
}

#[test]
fn a_node_that_reports_shards_is_not_forgotten() {
    let mut s = scheduler(1, 3);
    three_nodes(&mut s);
    s.membership.heartbeat(
        &"z".to_string(),
        0,
        HeartbeatReport {
            hosted_shards: vec![0],
            ..hb("z")
        },
    );
    s.membership.drain(&"z".to_string());
    reconcile(&mut s);
    assert!(s.membership.snapshot().iter().any(|n| n.node_id == "z"));
}

#[test]
fn a_tick_is_for_leaders() {
    let mut s = scheduler(2, 3);
    three_nodes(&mut s);
    let (dead, commands) = tick(
        &mut s.membership,
        &s.placement,
        &s.plan,
        false,
        1_000_000,
        &NullOracle,
    );
    assert!(dead.is_empty() && commands.is_empty());
    assert!(s
        .membership
        .snapshot()
        .iter()
        .all(|n| n.last_seen_ms == 0 && n.failure_domain != ""));

    let (dead, commands) = tick(
        &mut s.membership,
        &s.placement,
        &s.plan,
        true,
        1,
        &NullOracle,
    );
    assert!(dead.is_empty());
    assert_eq!(commands.len(), 2);
    assert!(commands
        .iter()
        .all(|c| matches!(c, Command::AssignShard(a) if a.replicas.len() == 3)));
    let (dead, _) = tick(
        &mut s.membership,
        &s.placement,
        &s.plan,
        true,
        1_000_000,
        &NullOracle,
    );
    assert_eq!(dead, vec!["a", "b", "c"]);
}

#[test]
fn what_is_published_stays_spread() {
    let domain_of = |id: &String| match id.as_str() {
        "a" | "d" => "gcp",
        "b" | "e" => "aws",
        _ => "hetzner",
    };
    let mut s = scheduler(12, 3);
    s.plan.target_nodes = 6;
    three_nodes(&mut s);
    let spread = |s: &LocalControlPlane| -> Vec<usize> {
        (0..12)
            .map(|i| {
                let replicas = s.placement.get(i).unwrap().replicas;
                replicas.iter().map(domain_of).collect::<HashSet<_>>().len()
            })
            .collect()
    };
    reconcile(&mut s);
    assert_eq!(spread(&s), vec![3; 12]);
    for (id, dom) in [("d", "gcp"), ("e", "aws"), ("f", "hetzner")] {
        s.membership.heartbeat(&id.to_string(), 0, hb(dom));
    }
    // The load evens out over the new nodes, and no shard loses a domain over it.
    for _ in 0..4 {
        reconcile(&mut s);
        assert_eq!(spread(&s), vec![3; 12]);
    }
}

#[test]
fn one_replica_of_a_shard_moves_at_a_time() {
    let mut s = scheduler(12, 3);
    s.plan.target_nodes = 6;
    three_nodes(&mut s);
    reconcile(&mut s);
    let before: Vec<HashSet<String>> = (0..12)
        .map(|i| s.placement.get(i).unwrap().replicas.into_iter().collect())
        .collect();
    for (id, dom) in [("d", "gcp"), ("e", "aws"), ("f", "hetzner")] {
        s.membership.heartbeat(&id.to_string(), 0, hb(dom));
    }
    reconcile(&mut s);
    for (i, old) in before.iter().enumerate() {
        let new: HashSet<String> = s
            .placement
            .get(i as u32)
            .unwrap()
            .replicas
            .into_iter()
            .collect();
        assert_eq!(new.len(), 3);
        assert!(old.intersection(&new).count() >= 2, "shard {i}");
    }
}
