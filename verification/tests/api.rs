use fiducia_brain::api::{
    accepted_policy, address_under, ha_configured, health_name, heartbeat, non_empty_or_unknown,
    policy_request, remove_node, requested_plan, route_hard, route_soft, sanitize_report,
    scale_route, status_summary, HeartbeatOutcome, PolicyOutcome, RemoveOutcome, Route, Standing,
};
use fiducia_brain::membership::{Membership, MembershipConfig};
use fiducia_brain::model::{
    HeartbeatReport, NodeHealth, NodeInfo, PlacementPolicyUpdate, ScalePlan, ShardAssignment,
};

fn standing(available: bool, leader: bool, addr: Option<&str>) -> Standing {
    Standing {
        available,
        leader,
        leader_addr: addr.map(|a| a.to_string()),
    }
}

fn members() -> Membership {
    Membership::new(MembershipConfig::default())
}

fn update(namespace: &str) -> PlacementPolicyUpdate {
    PlacementPolicyUpdate {
        namespace: namespace.to_string(),
        home_region: Some("us-east-1".to_string()),
        preferred_cloud_provider: None,
    }
}

#[test]
fn sanitize_report_drops_out_of_range_duplicate_and_unhosted_shards() {
    let mut report = HeartbeatReport {
        hosted_shards: vec![0, 1, 1, 3, 99, u32::MAX],
        leading_shards: vec![1, 1, 2, 99],
        ..HeartbeatReport::default()
    };
    sanitize_report(&mut report, 4);
    assert_eq!(
        report.hosted_shards,
        vec![0, 1, 3],
        "out-of-range and duplicate hosted shards dropped"
    );
    assert_eq!(
        report.leading_shards,
        vec![1],
        "leading claims limited to hosted, in-range, deduplicated shards"
    );
}

#[test]
fn sanitize_report_keeps_a_well_formed_report_unchanged() {
    let mut report = HeartbeatReport {
        hosted_shards: vec![2, 0, 3],
        leading_shards: vec![0, 3],
        ..HeartbeatReport::default()
    };
    sanitize_report(&mut report, 4);
    assert_eq!(report.hosted_shards, vec![2, 0, 3]);
    assert_eq!(report.leading_shards, vec![0, 3]);
}

#[test]
fn a_heartbeat_with_forged_shard_state_is_recorded_sanitized() {
    let mut m = members();
    let outcome = heartbeat(
        &mut m,
        &standing(true, true, None),
        &"liar".to_string(),
        1,
        HeartbeatReport {
            hosted_shards: vec![0, 0, 500],
            leading_shards: vec![0, 500, 3],
            ..HeartbeatReport::default()
        },
        4,
    );
    assert!(matches!(outcome, HeartbeatOutcome::Recorded(NodeHealth::Healthy)));
    let node = m.snapshot().remove(0);
    assert_eq!(node.hosted_shards, vec![0]);
    assert_eq!(
        node.leading_shards,
        vec![0],
        "cannot claim to lead shards it does not host or that do not exist"
    );
}

#[test]
fn an_unavailable_member_refuses_all_mutations_with_503() {
    let mut m = members();
    let s = standing(false, false, None);
    let id = "node-a".to_string();
    assert!(matches!(
        heartbeat(&mut m, &s, &id, 0, HeartbeatReport::default(), 4),
        HeartbeatOutcome::Unavailable
    ));
    assert!(
        m.snapshot().is_empty(),
        "a failed-closed member must not record heartbeats"
    );
    assert!(matches!(
        remove_node(&mut m, &s, &id),
        RemoveOutcome::Unavailable
    ));
    assert!(matches!(scale_route(&s, false), Route::Unavailable));
    assert!(matches!(
        policy_request(&s, &update("tenant-a")),
        PolicyOutcome::Unavailable
    ));
}

#[test]
fn a_policy_posted_to_a_follower_lands_on_the_leader() {
    let s = standing(true, false, Some("http://leader:9090/"));
    match policy_request(&s, &update("tenant-a")) {
        PolicyOutcome::Forward(url) => assert_eq!(url, "http://leader:9090/v1/policies"),
        other => panic!("unexpected {other:?}"),
    }
    match policy_request(&standing(true, true, None), &update(" tenant-a ")) {
        PolicyOutcome::Accept { namespace } => {
            let p = accepted_policy(update("tenant-a"), namespace, 2);
            assert_eq!(p.namespace, "tenant-a");
            assert_eq!(p.shard_id, 2);
            assert_eq!(p.home_region.as_deref(), Some("us-east-1"));
            assert_eq!(p.preferred_cloud_provider, None);
        }
        other => panic!("unexpected {other:?}"),
    }
}

#[test]
fn a_policy_posted_to_a_follower_without_a_leader_reports_not_leader() {
    // Mid-election: refuse rather than apply somewhere it will never be read.
    assert!(matches!(
        policy_request(&standing(true, false, None), &update("tenant-a")),
        PolicyOutcome::NotLeader
    ));
}

#[test]
fn an_available_leader_still_accepts_heartbeats_and_drain() {
    let mut m = members();
    let s = standing(true, true, None);
    let id = "node-a".to_string();
    assert!(matches!(
        heartbeat(&mut m, &s, &id, 0, HeartbeatReport::default(), 4),
        HeartbeatOutcome::Recorded(NodeHealth::Healthy)
    ));
    assert_eq!(m.snapshot().len(), 1);
    assert!(matches!(
        remove_node(&mut m, &s, &id),
        RemoveOutcome::Draining(true)
    ));
    assert_eq!(m.snapshot()[0].health, NodeHealth::Draining);
    assert!(matches!(
        remove_node(&mut m, &s, &"stranger".to_string()),
        RemoveOutcome::Draining(false)
    ));
}

#[test]
fn a_follower_forwards_and_keeps_no_state() {
    let mut m = members();
    let s = standing(true, false, Some("http://leader//"));
    match heartbeat(
        &mut m,
        &s,
        &"n".to_string(),
        0,
        HeartbeatReport {
            hosted_shards: vec![1, 9],
            ..HeartbeatReport::default()
        },
        4,
    ) {
        HeartbeatOutcome::Forward(url, report) => {
            assert_eq!(url, "http://leader/v1/nodes/n/heartbeat");
            assert_eq!(report.hosted_shards, vec![1]);
        }
        other => panic!("unexpected {other:?}"),
    }
    match remove_node(&mut m, &s, &"n".to_string()) {
        RemoveOutcome::Forward(url) => assert_eq!(url, "http://leader/v1/nodes/n"),
        other => panic!("unexpected {other:?}"),
    }
    assert!(m.snapshot().is_empty());
    // No leader known: soft state is taken in as well as it goes, hard state is refused.
    let lost = standing(true, false, None);
    assert!(matches!(route_soft(&lost, "/x"), Route::Here));
    assert!(matches!(route_hard(&lost, "/x"), Route::NotLeader));
    match scale_route(&s, false) {
        Route::Forward(url) => assert_eq!(url, "http://leader/v1/scale"),
        other => panic!("unexpected {other:?}"),
    }
    assert!(matches!(scale_route(&lost, false), Route::NotLeader));
    assert!(matches!(scale_route(&s, true), Route::Here));
}

#[test]
fn policies_need_a_namespace_and_drop_blank_wishes() {
    assert!(matches!(
        policy_request(&standing(true, true, None), &update("  ")),
        PolicyOutcome::NamespaceRequired
    ));
    let p = accepted_policy(
        PlacementPolicyUpdate {
            namespace: "t".to_string(),
            home_region: Some("  ".to_string()),
            preferred_cloud_provider: Some("aws".to_string()),
        },
        "t".to_string(),
        0,
    );
    assert_eq!(p.home_region, None);
    assert_eq!(p.preferred_cloud_provider.as_deref(), Some("aws"));
}

#[test]
fn requested_plans_keep_the_factor_and_the_floor() {
    let plan = requested_plan(ScalePlan {
        target_nodes: 1,
        replication_factor: 9,
    });
    assert_eq!(plan.target_nodes, 3);
    assert_eq!(plan.replication_factor, 3);
    let plan = requested_plan(ScalePlan {
        target_nodes: 12,
        replication_factor: 1,
    });
    assert_eq!(plan.target_nodes, 12);
}

#[test]
fn names_and_addresses() {
    assert_eq!(health_name(NodeHealth::Healthy), "healthy");
    assert_eq!(health_name(NodeHealth::Suspect), "suspect");
    assert_eq!(health_name(NodeHealth::Dead), "dead");
    assert_eq!(health_name(NodeHealth::Draining), "draining");
    assert_eq!(non_empty_or_unknown("  AWS/us "), "aws/us");
    assert_eq!(non_empty_or_unknown(" "), "unknown");
    assert_eq!(address_under("http://a///", "/b"), "http://a/b");
    assert_eq!(address_under("///", "x"), "x");
    assert!(!ha_configured(1));
    assert!(ha_configured(2));
}

fn node(id: &str, health: NodeHealth, domain: &str, cloud: &str, cluster: &str) -> NodeInfo {
    NodeInfo {
        node_id: id.to_string(),
        address: String::new(),
        health,
        cloud_provider: cloud.to_string(),
        region: String::new(),
        cluster_id: cluster.to_string(),
        failure_domain: domain.to_string(),
        last_seen_ms: 0,
        hosted_shards: Vec::new(),
        leading_shards: Vec::new(),
        last_seq: 0,
    }
}

fn placed(shard: u32, replicas: &[&str], leader: Option<&str>) -> ShardAssignment {
    ShardAssignment {
        shard_id: shard,
        replicas: replicas.iter().map(|r| r.to_string()).collect(),
        preferred_leader: leader.map(|l| l.to_string()),
        preferred_region: None,
        preferred_cloud_provider: None,
    }
}

#[test]
fn the_status_counts_what_is_and_what_is_missing() {
    let nodes = vec![
        node("a", NodeHealth::Healthy, "GCP ", "gcp", "c1"),
        node("b", NodeHealth::Healthy, "aws", " AWS", ""),
        node("c", NodeHealth::Healthy, "", "aws", "C1 "),
        node("d", NodeHealth::Suspect, "aws", "azure", "c9"),
        node("e", NodeHealth::Dead, "gcp", "", ""),
        node("f", NodeHealth::Draining, "x", "", ""),
    ];
    let plan = ScalePlan {
        target_nodes: 3,
        replication_factor: 3,
    };
    let list = vec![
        placed(0, &["a", "b", "c"], Some("a")),
        placed(1, &["a", "b"], Some("a")),
        placed(2, &["a", "b", "d"], None),
        placed(3, &["a", "b", "stranger"], Some("a")),
    ];
    let s = status_summary(&nodes, &list, &plan, 6);
    assert_eq!((s.healthy, s.suspect, s.dead, s.draining), (3, 1, 1, 1));
    let domains: Vec<(String, u64)> = (0..s.nodes_by_failure_domain.len())
        .map(|i| {
            (
                s.nodes_by_failure_domain.key_at(i).clone(),
                *s.nodes_by_failure_domain.value_at(i),
            )
        })
        .collect();
    assert_eq!(
        domains,
        vec![
            ("aws".to_string(), 2),
            ("gcp".to_string(), 2),
            ("unknown".to_string(), 1),
            ("x".to_string(), 1)
        ]
    );
    assert_eq!(s.healthy_failure_domains, 3);
    assert_eq!(s.healthy_cloud_providers, 2);
    assert_eq!(s.healthy_kubernetes_clusters, 2);
    assert!(s.scale_target_met);
    assert_eq!(s.placed_shards, 4);
    assert_eq!(s.unplaced_shards, 2);
    assert_eq!(s.under_replicated_shards, 3);
    assert_eq!(s.leaderless_shards, 3);
    assert_eq!(s.shards_with_unhealthy_replicas, 2);
    assert!(!s.ready);

    let good = vec![placed(0, &["a", "b", "c"], Some("a"))];
    assert!(status_summary(&nodes, &good, &plan, 1).ready);
    let more = ScalePlan {
        target_nodes: 4,
        replication_factor: 3,
    };
    assert!(!status_summary(&nodes, &good, &more, 1).scale_target_met);
}
