use fiducia_brain::model::NodeId;
use fiducia_brain::plan::{plan_replicas, NodeSlot};
use std::collections::HashSet;

fn slot(id: &str, domain: &str, load: u32) -> NodeSlot {
    NodeSlot {
        node_id: id.to_string(),
        domain: domain.to_string(),
        load,
    }
}
fn ids(xs: &[&str]) -> Vec<NodeId> {
    xs.iter().map(|s| s.to_string()).collect()
}

#[test]
fn initial_placement_spreads_rf_across_distinct_domains() {
    // 3 domains, RF=3 → one replica per domain.
    let healthy = vec![
        slot("a1", "gcp", 0),
        slot("a2", "gcp", 0),
        slot("b1", "aws", 0),
        slot("c1", "hetzner", 0),
    ];
    let plan = plan_replicas(&[], &healthy, 3);
    assert_eq!(plan.len(), 3);
    let domains: HashSet<_> = plan
        .iter()
        .map(|id| {
            healthy
                .iter()
                .find(|s| &s.node_id == id)
                .unwrap()
                .domain
                .clone()
        })
        .collect();
    assert_eq!(domains.len(), 3, "one replica per failure domain");
}

#[test]
fn rereplication_drops_dead_replica_and_keeps_the_healthy_ones() {
    // Shard was on [a,b,c]; b is gone (not in healthy). d is the fresh node.
    let healthy = vec![
        slot("a", "gcp", 5),
        slot("c", "hetzner", 5),
        slot("d", "aws", 0),
    ];
    let plan = plan_replicas(&ids(&["a", "b", "c"]), &healthy, 3);
    assert!(plan.contains(&"a".to_string()));
    assert!(plan.contains(&"c".to_string()));
    assert!(
        plan.contains(&"d".to_string()),
        "the lost replica is replaced"
    );
    assert!(
        !plan.contains(&"b".to_string()),
        "the dead replica is dropped"
    );
}

#[test]
fn fills_prefer_least_loaded_when_domains_are_equal() {
    // All one domain → domain preference is moot; least-loaded wins.
    let healthy = vec![slot("busy", "d", 100), slot("idle", "d", 0)];
    let plan = plan_replicas(&[], &healthy, 1);
    assert_eq!(plan, ids(&["idle"]));
}

#[test]
fn scale_down_evacuates_a_node_no_longer_healthy() {
    // Draining node "a" isn't in `healthy`; its replica moves to "c".
    let healthy = vec![slot("b", "aws", 1), slot("c", "hetzner", 0)];
    let plan = plan_replicas(&ids(&["a", "b"]), &healthy, 2);
    assert!(!plan.contains(&"a".to_string()));
    assert!(plan.contains(&"b".to_string()));
    assert!(plan.contains(&"c".to_string()));
}

#[test]
fn under_capacity_returns_what_it_can_without_panicking() {
    // Only 2 healthy nodes but RF=3 → place 2 now; re-replicate when a 3rd joins.
    let healthy = vec![slot("a", "gcp", 0), slot("b", "aws", 0)];
    let plan = plan_replicas(&[], &healthy, 3);
    assert_eq!(plan.len(), 2);
}

#[test]
fn a_plan_repeats_itself() {
    let healthy = vec![
        slot("a", "x", 3),
        slot("b", "y", 2),
        slot("c", "z", 1),
        slot("d", "x", 0),
    ];
    let plan = plan_replicas(&[], &healthy, 3);
    assert_eq!(plan_replicas(&plan, &healthy, 3), plan);
}

#[test]
fn the_order_of_candidates_does_not_matter() {
    let mut healthy = vec![
        slot("a", "x", 3),
        slot("b", "y", 2),
        slot("c", "z", 2),
        slot("d", "x", 0),
        slot("e", "y", 2),
    ];
    for current in [ids(&[]), ids(&["e"]), ids(&["a", "b", "c", "d", "gone"])] {
        for rf in 0..6 {
            let plan = plan_replicas(&current, &healthy, rf);
            for _ in 0..healthy.len() {
                healthy.rotate_left(1);
                assert_eq!(plan_replicas(&current, &healthy, rf), plan);
            }
            healthy.reverse();
            assert_eq!(plan_replicas(&current, &healthy, rf), plan);
        }
    }
}

#[test]
fn a_smaller_factor_drops_the_most_loaded() {
    let healthy = vec![slot("a", "x", 9), slot("b", "y", 1), slot("c", "z", 5)];
    let plan = plan_replicas(&ids(&["a", "b", "c"]), &healthy, 2);
    assert_eq!(plan.len(), 2);
    assert!(!plan.contains(&"a".to_string()));
}

#[test]
fn added_replicas_take_every_domain_there_is() {
    let healthy = vec![
        slot("a", "x", 0),
        slot("b", "x", 0),
        slot("c", "x", 0),
        slot("d", "y", 7),
        slot("e", "z", 9),
    ];
    let domains = |plan: &[NodeId]| {
        plan.iter()
            .map(|id| healthy.iter().find(|s| &s.node_id == id).unwrap().domain.clone())
            .collect::<std::collections::BTreeSet<_>>()
            .len()
    };
    // Two replicas that share a domain stay, and the third goes elsewhere.
    let plan = plan_replicas(&ids(&["a", "b"]), &healthy, 3);
    assert_eq!(plan.len(), 3);
    assert_eq!(domains(&plan), 2);
    // Three domains are all there are, however many replicas.
    let plan = plan_replicas(&ids(&["a", "b"]), &healthy, 5);
    assert_eq!(plan.len(), 5);
    assert_eq!(domains(&plan), 3);
    let plan = plan_replicas(&[], &healthy, 2);
    assert_eq!(domains(&plan), 2);
}
