use fiducia_brain::ids::IdMap;
use fiducia_brain::json::Json;
use fiducia_brain::oracle::{
    parse_pod_body, parse_pod_list, pod_liveness, KubeOracle, LivenessOracle, NullOracle, PodLiveness,
    STALE_AFTER_NANOS,
};

fn obj(entries: Vec<(&str, Json)>) -> Json {
    Json::Object(entries.into_iter().map(|(k, v)| (k.to_string(), v)).collect())
}
fn text(t: &str) -> Json {
    Json::Text(t.to_string())
}
fn phase(p: &str) -> Json {
    obj(vec![("phase", text(p))])
}

#[test]
fn null_oracle_is_always_unknown() {
    assert_eq!(NullOracle.liveness("anything"), PodLiveness::Unknown);
}

#[test]
fn pod_status_maps_to_liveness_on_positive_evidence_only() {
    let running = obj(vec![("status", phase("Running"))]);
    assert_eq!(pod_liveness(&running), PodLiveness::Running);

    let failed = obj(vec![("status", phase("Failed"))]);
    assert_eq!(pod_liveness(&failed), PodLiveness::Gone);

    let terminating = obj(vec![
        (
            "metadata",
            obj(vec![("deletionTimestamp", text("2026-06-28T00:00:00Z"))]),
        ),
        ("status", phase("Running")),
    ]);
    assert_eq!(pod_liveness(&terminating), PodLiveness::Gone, "terminating is gone");

    let crashloop = obj(vec![(
        "status",
        obj(vec![
            ("phase", text("Running")),
            (
                "containerStatuses",
                Json::Array(vec![obj(vec![(
                    "state",
                    obj(vec![("waiting", obj(vec![("reason", text("CrashLoopBackOff"))]))]),
                )])]),
            ),
        ]),
    )]);
    assert_eq!(pod_liveness(&crashloop), PodLiveness::Gone, "crashloop is gone");

    let pending = obj(vec![("status", phase("Pending"))]);
    assert_eq!(pod_liveness(&pending), PodLiveness::Unknown, "transitional is unknown");
}

#[test]
fn parse_pod_list_keys_by_pod_name() {
    let pod = |name: &str, p: &str| {
        obj(vec![
            ("metadata", obj(vec![("name", text(name))])),
            ("status", phase(p)),
        ])
    };
    let list = obj(vec![(
        "items",
        Json::Array(vec![
            pod("fiducia-node-0", "Running"),
            pod("fiducia-node-1", "Failed"),
        ]),
    )]);
    let map = parse_pod_list(&list);
    assert_eq!(map.get("fiducia-node-0"), Some(&PodLiveness::Running));
    assert_eq!(map.get("fiducia-node-1"), Some(&PodLiveness::Gone));
    assert_eq!(map.get("fiducia-node-2"), None);
}

#[test]
fn a_response_body_is_read_as_a_pod_list() {
    let body = br#"{"items": [
        {"metadata": {"name": "fiducia-node-0"}, "status": {"phase": "Running"}},
        {"metadata": {"name": "fiducia-node-1"}, "status": {"phase": "Failed"}}
    ]}"#;
    let map = parse_pod_body(body).unwrap();
    assert_eq!(map.len(), 2);
    assert_eq!(map.get("fiducia-node-0"), Some(&PodLiveness::Running));
    assert_eq!(map.get("fiducia-node-1"), Some(&PodLiveness::Gone));
    assert_eq!(parse_pod_body(b"{}").unwrap().len(), 0);
    assert!(parse_pod_body(b"upstream connect error").is_none());
    assert!(parse_pod_body(b"").is_none());
}

#[test]
fn a_list_without_items_says_nothing() {
    assert_eq!(parse_pod_list(&Json::Null).len(), 0);
    assert_eq!(parse_pod_list(&obj(vec![("items", Json::Bool(true))])).len(), 0);
    let nameless = obj(vec![(
        "items",
        Json::Array(vec![obj(vec![("status", phase("Running"))])]),
    )]);
    assert_eq!(parse_pod_list(&nameless).len(), 0);
}

#[test]
fn kube_oracle_cache_is_conservative_about_absent_and_stale() {
    let mut oracle = KubeOracle::new();
    // Never-populated cache ⇒ Unknown (fall back to timeouts).
    assert_eq!(oracle.liveness("fiducia-node-0"), PodLiveness::Unknown);

    // Fresh cache: present ⇒ its status; absent ⇒ Unknown (not Gone).
    let now: u64 = 100_000_000_000;
    let mut pods = IdMap::new();
    pods.insert("fiducia-node-0".to_string(), PodLiveness::Running);
    oracle.refresh(pods, now);
    oracle.set_now(now);
    assert_eq!(oracle.liveness("fiducia-node-0"), PodLiveness::Running);
    assert_eq!(oracle.liveness("fiducia-node-9"), PodLiveness::Unknown);

    // The last moment the cache is believed.
    oracle.set_now(now + STALE_AFTER_NANOS);
    assert_eq!(oracle.liveness("fiducia-node-0"), PodLiveness::Running);

    // Stale cache ⇒ Unknown regardless of contents.
    oracle.set_now(now + STALE_AFTER_NANOS + 1_000_000_000);
    assert_eq!(oracle.liveness("fiducia-node-0"), PodLiveness::Unknown);
}
