use fiducia_brain::config::{parse_csv, ClusterConfig, Settings, SUPPORTED_REPLICATION_FACTOR};
use fiducia_brain::decimal::{number_text, parse_unsigned, positive_or};

fn unset() -> Settings {
    Settings {
        cluster_id: None,
        shard_count: None,
        cluster: None,
        cloud_provider: None,
        platform: None,
        region: None,
        brain_peers: None,
    }
}

#[test]
fn config_keeps_supported_replication_factor_at_three() {
    let config = ClusterConfig::from_settings(&unset());
    assert_eq!(config.replication_factor, SUPPORTED_REPLICATION_FACTOR);
    assert_eq!(SUPPORTED_REPLICATION_FACTOR, 3);
}

#[test]
fn routing_is_safe_even_if_constructed_with_zero_shards() {
    let config = ClusterConfig {
        cluster_id: "test".to_string(),
        shard_count: 0,
        replication_factor: SUPPORTED_REPLICATION_FACTOR,
        local_cluster: None,
        cloud_provider: None,
        region: None,
        brain_peers: Vec::new(),
    };
    assert_eq!(config.routing_shards(), 1);
    let config = ClusterConfig {
        shard_count: 16,
        ..config
    };
    assert_eq!(config.routing_shards(), 16);
}

#[test]
fn parse_csv_trims_and_drops_empty_peers() {
    assert_eq!(
        parse_csv("brain.gcp:9095, , brain.aws:9095"),
        vec!["brain.gcp:9095".to_string(), "brain.aws:9095".to_string()]
    );
}

#[test]
fn csv_edges() {
    assert!(parse_csv("").is_empty());
    assert!(parse_csv(" , ,").is_empty());
    assert_eq!(parse_csv("a"), vec!["a"]);
    assert_eq!(parse_csv(",a,,b,"), vec!["a", "b"]);
}

#[test]
fn defaults_apply_where_nothing_is_set() {
    let config = ClusterConfig::from_settings(&unset());
    assert_eq!(config.cluster_id, "fiducia-local");
    assert_eq!(config.shard_count, 16);
    assert_eq!(config.local_cluster, None);
    assert_eq!(config.cloud_provider, None);
    assert_eq!(config.region, None);
    assert!(config.brain_peers.is_empty());
}

#[test]
fn settings_are_read_and_bad_ones_fall_back() {
    let config = ClusterConfig::from_settings(&Settings {
        cluster_id: Some("prod".to_string()),
        shard_count: Some("64".to_string()),
        cluster: Some("  aws-prod ".to_string()),
        cloud_provider: Some(" ".to_string()),
        platform: Some("aws".to_string()),
        region: Some("us-east-1".to_string()),
        brain_peers: Some("http://b:9095,http://c:9095".to_string()),
    });
    assert_eq!(config.cluster_id, "prod");
    assert_eq!(config.shard_count, 64);
    assert_eq!(config.local_cluster.as_deref(), Some("aws-prod"));
    assert_eq!(config.cloud_provider.as_deref(), Some("aws"));
    assert_eq!(config.region.as_deref(), Some("us-east-1"));
    assert_eq!(config.brain_peers.len(), 2);

    for bad in ["0", "-1", "many", "", "4294967296"] {
        let config = ClusterConfig::from_settings(&Settings {
            shard_count: Some(bad.to_string()),
            ..unset()
        });
        assert_eq!(config.shard_count, 16, "{bad:?} is no shard count");
    }
}

#[test]
fn the_initial_plan_is_floored_at_the_replication_factor() {
    let config = ClusterConfig::from_settings(&unset());
    let plan = |s: Option<&str>| config.initial_plan(&s.map(|x| x.to_string()));
    assert_eq!(plan(None).target_nodes, 3);
    assert_eq!(plan(Some("1")).target_nodes, 3);
    assert_eq!(plan(Some("7")).target_nodes, 7);
    assert_eq!(plan(Some("seven")).target_nodes, 3);
    assert_eq!(plan(Some("7")).replication_factor, 3);
}

#[test]
fn numbers_are_written_and_read() {
    assert_eq!(number_text(0), "0");
    assert_eq!(number_text(1203), "1203");
    assert_eq!(number_text(u64::MAX), "18446744073709551615");
    assert_eq!(parse_unsigned("1203"), Some(1203));
    assert_eq!(parse_unsigned("+7"), Some(7));
    assert_eq!(parse_unsigned("007"), Some(7));
    assert_eq!(parse_unsigned("18446744073709551615"), Some(u64::MAX));
    for bad in ["", "+", "-1", " 1", "1 ", "1_0", "18446744073709551616"] {
        assert_eq!(parse_unsigned(bad), None, "{bad:?}");
    }
    for n in [0u64, 9, 10, 99, 100, 12345, u64::MAX] {
        assert_eq!(parse_unsigned(&number_text(n)), Some(n));
    }
    assert_eq!(positive_or(None, 5), 5);
    assert_eq!(positive_or(Some(&"0".to_string()), 5), 5);
    assert_eq!(positive_or(Some(&"8".to_string()), 5), 8);
}
