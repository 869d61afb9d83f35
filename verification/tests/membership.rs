use fiducia_brain::ids::IdMap;
use fiducia_brain::membership::{dead_after_ms_after, Membership, MembershipConfig};
use fiducia_brain::model::{HeartbeatReport, NodeHealth};
use fiducia_brain::oracle::{KubeOracle, PodLiveness};

fn report(domain: &str, shards: &[u32]) -> HeartbeatReport {
    HeartbeatReport {
        address: "10.0.0.1:8090".to_string(),
        cloud_provider: String::new(),
        region: String::new(),
        cluster_id: String::new(),
        failure_domain: domain.to_string(),
        hosted_shards: shards.to_vec(),
        leading_shards: shards.to_vec(),
        seq: 0,
    }
}

#[test]
fn heartbeat_registers_then_silence_walks_healthy_suspect_dead() {
    let mut m = Membership::new(MembershipConfig {
        suspect_after_ms: 1_000,
        dead_after_ms: 5_000,
    });
    m.heartbeat(&"a".to_string(), 0, report("gcp", &[0, 1]));

    // Still fresh.
    assert!(m.sweep(500).is_empty());
    assert_eq!(m.snapshot()[0].health, NodeHealth::Healthy);

    // Past suspect, before dead.
    assert!(m.sweep(2_000).is_empty());
    assert_eq!(m.snapshot()[0].health, NodeHealth::Suspect);

    // Past dead → reported exactly once.
    assert_eq!(m.sweep(6_000), vec!["a".to_string()]);
    assert_eq!(m.snapshot()[0].health, NodeHealth::Dead);
    assert!(
        m.sweep(7_000).is_empty(),
        "dead is reported only on the transition"
    );

    // A fresh heartbeat resurrects it.
    m.heartbeat(&"a".to_string(), 7_000, report("gcp", &[0, 1]));
    assert_eq!(m.snapshot()[0].health, NodeHealth::Healthy);
}

#[test]
fn draining_is_sticky_across_heartbeats_and_sweeps() {
    let mut m = Membership::new(MembershipConfig::default());
    m.heartbeat(&"a".to_string(), 0, report("aws", &[2]));
    assert!(m.drain(&"a".to_string()));
    // Keeps heartbeating, but stays Draining (operator intent wins).
    m.heartbeat(&"a".to_string(), 100, report("aws", &[2]));
    assert_eq!(m.snapshot()[0].health, NodeHealth::Draining);
    // And the failure sweep never flips a draining node to Dead.
    assert!(m.sweep(1_000_000).is_empty());
    assert_eq!(m.snapshot()[0].health, NodeHealth::Draining);
}

#[test]
fn heartbeat_derives_failure_domain_from_cloud_and_region() {
    let mut m = Membership::new(MembershipConfig::default());
    m.heartbeat(
        &"node-a".to_string(),
        0,
        HeartbeatReport {
            address: "10.0.0.1:8090".to_string(),
            cloud_provider: "AWS".to_string(),
            region: "us-east-1".to_string(),
            cluster_id: "aws-prod".to_string(),
            failure_domain: String::new(),
            hosted_shards: vec![],
            leading_shards: vec![],
            seq: 0,
        },
    );

    let node = m.snapshot().remove(0);
    assert_eq!(node.cloud_provider, "AWS");
    assert_eq!(node.region, "us-east-1");
    assert_eq!(node.cluster_id, "aws-prod");
    assert_eq!(node.failure_domain, "aws/us-east-1/aws-prod");
}

#[test]
fn detector_config_keeps_dead_after_suspect() {
    assert_eq!(dead_after_ms_after(6_000, 1_000), 6_001);
    assert_eq!(dead_after_ms_after(6_000, 30_000), 30_000);
}

#[test]
fn detector_defaults_and_settings() {
    let d = MembershipConfig::default();
    assert_eq!(d.suspect_after_ms, 6_000);
    assert_eq!(d.dead_after_ms, 30_000);
    let c = MembershipConfig::from_settings(Some(&"500".to_string()), Some(&"100".to_string()));
    assert_eq!(c.suspect_after_ms, 500);
    assert_eq!(c.dead_after_ms, 501);
    let c = MembershipConfig::from_settings(Some(&"x".to_string()), None);
    assert_eq!(c.suspect_after_ms, 6_000);
    assert_eq!(dead_after_ms_after(u64::MAX, 1), u64::MAX);
}

#[test]
fn outdated_reports_are_ignored_and_unsequenced_ones_are_not() {
    let mut m = Membership::new(MembershipConfig::default());
    let id = "a".to_string();
    let seq = |n: u64, shard: u32| HeartbeatReport {
        seq: n,
        ..report("d", &[shard])
    };
    assert_eq!(m.heartbeat(&id, 1, seq(5, 1)), NodeHealth::Healthy);
    assert_eq!(m.heartbeat(&id, 2, seq(5, 2)), NodeHealth::Healthy);
    assert_eq!(m.heartbeat(&id, 3, seq(4, 3)), NodeHealth::Healthy);
    let node = m.snapshot().remove(0);
    assert_eq!(node.last_seen_ms, 1);
    assert_eq!(node.hosted_shards, vec![1]);
    assert_eq!(node.last_seq, 5);
    m.heartbeat(&id, 4, seq(0, 4));
    let node = m.snapshot().remove(0);
    assert_eq!(node.last_seen_ms, 4);
    assert_eq!(node.hosted_shards, vec![4]);
    assert_eq!(node.last_seq, 5, "the floor never falls");
}

/// An oracle that says one thing of node `a`.
fn says(verdict: PodLiveness) -> KubeOracle {
    let mut pods = IdMap::new();
    pods.insert("a".to_string(), verdict);
    let mut oracle = KubeOracle::new();
    oracle.refresh(pods, 0);
    oracle
}

#[test]
fn an_oracle_speeds_death_up_and_holds_it_back() {
    let mut m = Membership::new(MembershipConfig {
        suspect_after_ms: 10,
        dead_after_ms: 20,
    });
    m.heartbeat(&"a".to_string(), 0, report("d", &[]));
    assert_eq!(m.sweep_with_oracle(0, &says(PodLiveness::Gone)), vec!["a"]);
    m.heartbeat(&"a".to_string(), 0, report("d", &[]));
    assert!(m.sweep_with_oracle(1_000, &says(PodLiveness::Running)).is_empty());
    assert_eq!(m.snapshot()[0].health, NodeHealth::Suspect);
    assert_eq!(m.sweep_with_oracle(1_000, &says(PodLiveness::Unknown)), vec!["a"]);
}

#[test]
fn nodes_are_listed_once_in_order_and_can_be_forgotten() {
    let mut m = Membership::new(MembershipConfig::default());
    for id in ["c", "a", "b", "a"] {
        m.heartbeat(&id.to_string(), 0, report("d", &[]));
    }
    let ids: Vec<String> = m.snapshot().into_iter().map(|n| n.node_id).collect();
    assert_eq!(ids, vec!["a", "b", "c"]);
    assert!(m.forget(&"b".to_string()));
    assert!(!m.forget(&"b".to_string()));
    assert!(!m.drain(&"b".to_string()));
    assert_eq!(m.snapshot().len(), 2);
}

#[test]
fn an_unknown_domain_falls_back_to_the_node_itself() {
    let mut m = Membership::new(MembershipConfig::default());
    m.heartbeat(&"n".to_string(), 0, HeartbeatReport::default());
    assert_eq!(m.snapshot()[0].failure_domain, "n");
    m.heartbeat(&"n".to_string(), 1, report("  Rack-1 ", &[]));
    assert_eq!(m.snapshot()[0].failure_domain, "rack-1");
    assert_eq!(m.snapshot()[0].address, "10.0.0.1:8090");
    m.heartbeat(&"n".to_string(), 2, HeartbeatReport::default());
    assert_eq!(m.snapshot()[0].failure_domain, "rack-1", "silence keeps what is known");
    assert_eq!(m.snapshot()[0].address, "10.0.0.1:8090");
}
