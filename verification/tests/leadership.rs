use fiducia_brain::ids::IdSet;
use fiducia_brain::leadership::{desired_leader, preferred_leader_for_policy, LeaderSlot};
use fiducia_brain::model::{NodeId, PlacementPolicy};

fn set(xs: &[&str]) -> IdSet {
    let mut s = IdSet::new();
    for x in xs {
        s.insert(x.to_string());
    }
    s
}
fn ids(xs: &[&str]) -> Vec<NodeId> {
    xs.iter().map(|s| s.to_string()).collect()
}
fn id(s: &str) -> NodeId {
    s.to_string()
}
fn leader_slot(id: &str, cloud: &str, region: &str, leader_load: u32) -> LeaderSlot {
    LeaderSlot {
        node_id: id.to_string(),
        cloud_provider: cloud.to_string(),
        region: region.to_string(),
        leader_load,
    }
}

#[test]
fn affinity_failover_then_return() {
    let replicas = ids(&["a", "b", "c"]);
    let pref = id("a");

    // Steady state: preferred (a) is healthy -> a leads.
    assert_eq!(
        desired_leader(Some(&pref), &replicas, &set(&["a", "b", "c"]), None).as_deref(),
        Some("a"),
    );

    // a dies (current leader a is now unhealthy) -> fail over to first healthy (b).
    assert_eq!(
        desired_leader(Some(&pref), &replicas, &set(&["b", "c"]), Some(&id("a"))).as_deref(),
        Some("b"),
    );

    // a recovers -> affinity pulls leadership back to a (even though b leads now).
    assert_eq!(
        desired_leader(
            Some(&pref),
            &replicas,
            &set(&["a", "b", "c"]),
            Some(&id("b"))
        )
        .as_deref(),
        Some("a"),
    );
}

#[test]
fn no_preferred_keeps_current_to_avoid_churn() {
    let replicas = ids(&["a", "b", "c"]);
    assert_eq!(
        desired_leader(None, &replicas, &set(&["a", "b", "c"]), Some(&id("b"))).as_deref(),
        Some("b"),
    );
}

#[test]
fn preferred_that_is_not_a_replica_is_ignored() {
    let replicas = ids(&["a", "b", "c"]);
    let pref = id("z"); // not a replica of this shard
    assert_eq!(
        desired_leader(Some(&pref), &replicas, &set(&["a", "b"]), None).as_deref(),
        Some("a"),
    );
}

#[test]
fn none_when_no_replica_is_healthy() {
    let replicas = ids(&["a", "b"]);
    assert_eq!(
        desired_leader(None, &replicas, &set(&["c"]), Some(&id("a"))),
        None,
    );
}

#[test]
fn policy_prefers_home_region_then_balances_leader_load() {
    let replicas = ids(&["gcp-a", "aws-a", "aws-b", "hetzner-a"]);
    let healthy = set(&["gcp-a", "aws-a", "aws-b", "hetzner-a"]);
    let policy = PlacementPolicy {
        namespace: "tenant-a".to_string(),
        shard_id: 7,
        home_region: Some("us-east-1".to_string()),
        preferred_cloud_provider: None,
    };
    let slots = vec![
        leader_slot("gcp-a", "gcp", "us-central1", 0),
        leader_slot("aws-a", "aws", "us-east-1", 3),
        leader_slot("aws-b", "aws", "us-east-1", 1),
        leader_slot("hetzner-a", "hetzner", "nbg1", 0),
    ];

    assert_eq!(
        preferred_leader_for_policy(Some(&policy), &replicas, &healthy, &slots, None).as_deref(),
        Some("aws-b")
    );
}

#[test]
fn no_policy_picks_least_loaded_replica() {
    let replicas = ids(&["a", "b", "c"]);
    let healthy = set(&["a", "b", "c"]);
    let slots = vec![
        leader_slot("a", "gcp", "us", 5),
        leader_slot("b", "aws", "us", 1),
        leader_slot("c", "hetzner", "eu", 3),
    ];

    assert_eq!(
        preferred_leader_for_policy(None, &replicas, &healthy, &slots, None).as_deref(),
        Some("b")
    );
}

#[test]
fn affinity_ignores_the_case_of_letters() {
    let replicas = ids(&["a", "b"]);
    let policy = PlacementPolicy {
        namespace: "t".to_string(),
        shard_id: 0,
        home_region: Some("EU-West".to_string()),
        preferred_cloud_provider: Some("AWS".to_string()),
    };
    let slots = vec![
        leader_slot("a", "gcp", "us", 0),
        leader_slot("b", "aws", "eu-west", 9),
    ];
    assert_eq!(
        preferred_leader_for_policy(Some(&policy), &replicas, &set(&["a", "b"]), &slots, None)
            .as_deref(),
        Some("b")
    );
    assert_eq!(
        preferred_leader_for_policy(Some(&policy), &replicas, &set(&["a"]), &slots, None)
            .as_deref(),
        Some("a"),
        "a leader has to be healthy"
    );
    assert_eq!(
        preferred_leader_for_policy(Some(&policy), &[], &set(&["a", "b"]), &slots, None),
        None
    );
}
