use fiducia_brain::harness::{node_id, node_number, report, Harness, Projection, SHARD};
use fiducia_brain::json::Json;
use fiducia_brain::replay::{
    check_request, collect_itf_traces, expected_projection, itf_bigint, itf_set, projection_json,
    replay_bytes, replay_paths, replay_trace, replay_traces, required_actions, ReplayRequest, Trace,
    TraceFile, ADAPTER_PROTOCOL,
};
use serde_json::Value;
use std::collections::BTreeSet;

fn obj(entries: Vec<(&str, Json)>) -> Json {
    Json::Object(entries.into_iter().map(|(k, v)| (k.to_string(), v)).collect())
}
fn text(t: &str) -> Json {
    Json::Text(t.to_string())
}
fn big(n: u64) -> Json {
    obj(vec![("#bigint", text(&n.to_string()))])
}
fn set(ns: &BTreeSet<u64>) -> Json {
    obj(vec![("#set", Json::Array(ns.iter().map(|n| big(*n)).collect()))])
}
fn numbers(ns: &[u64]) -> BTreeSet<u64> {
    ns.iter().copied().collect()
}

fn value(json: &Json) -> Value {
    match json {
        Json::Null => Value::Null,
        Json::Bool(b) => Value::Bool(*b),
        Json::Unsigned(u) => Value::from(*u),
        Json::Signed(i) => Value::from(*i),
        Json::Float(t) => panic!("no trace holds {t}"),
        Json::Text(t) => Value::String(t.clone()),
        Json::Array(v) => Value::Array(v.iter().map(value).collect()),
        Json::Object(m) => Value::Object(m.iter().map(|(k, v)| (k.clone(), value(v))).collect()),
    }
}

/// A document as a file holds it.
fn file(json: &Json) -> Vec<u8> {
    serde_json::to_vec(&value(json)).unwrap()
}

/// A state as a trace records it.
fn state(p: &Projection) -> Json {
    obj(vec![
        ("role", obj(vec![("tag", text(if p.leader { "Leader" } else { "Follower" }))])),
        ("known", set(&p.known)),
        ("healthy", set(&p.healthy)),
        ("draining", set(&p.draining)),
        ("hosted", set(&p.hosted)),
        ("observed_leader", big(p.observed_leader)),
        ("placement", set(&p.placement)),
        ("preferred_leader", Json::Unsigned(p.preferred_leader)),
        ("generation", big(p.generation)),
        ("forgotten", set(&p.forgotten)),
    ])
}

fn step(action: &str, p: &Projection) -> Json {
    obj(vec![("mbt::actionTaken", text(action)), ("s", state(p))])
}

/// The trace that a run of these actions would record.
fn trace(actions: &[&str]) -> Json {
    let mut harness = Harness::initial();
    let mut states = vec![step("init", &harness.projection())];
    for action in actions {
        harness.apply(action).unwrap();
        states.push(step(action, &harness.projection()));
    }
    obj(vec![("states", Json::Array(states))])
}

fn start() -> Projection {
    Projection {
        leader: true,
        known: numbers(&[1, 2, 3]),
        healthy: numbers(&[1, 2, 3]),
        draining: numbers(&[]),
        hosted: numbers(&[1, 2, 3]),
        observed_leader: 1,
        placement: numbers(&[1, 2, 3]),
        preferred_leader: 1,
        generation: 1,
        forgotten: numbers(&[]),
    }
}

#[test]
fn the_cluster_begins_as_described() {
    let harness = Harness::initial();
    assert_eq!(harness.projection(), start());
    assert_eq!(node_id(4), "d");
    assert_eq!(node_number("c"), Some(3));
    assert_eq!(node_number("e"), None);
    let r = report(2, true, false);
    assert_eq!(r.address, "10.0.0.2:8090");
    assert_eq!(r.cloud_provider, "cloud-b");
    assert_eq!(r.region, "region-b");
    assert_eq!(r.cluster_id, "cluster-b");
    assert_eq!(r.failure_domain, "domain-b");
    assert_eq!(r.hosted_shards, vec![SHARD]);
    assert!(r.leading_shards.is_empty());
}

#[test]
fn a_dead_node_is_replaced_once_there_is_another() {
    let mut h = Harness::initial();
    h.apply("mark_a_dead").unwrap();
    let p = h.projection();
    assert_eq!(p.known, numbers(&[1, 2, 3]));
    assert_eq!(p.healthy, numbers(&[2, 3]));
    assert_eq!(p.observed_leader, 0);
    // Two nodes cannot hold three replicas: the placement stays.
    h.apply("reconcile_degraded_hold").unwrap();
    assert_eq!(h.projection().placement, numbers(&[1, 2, 3]));
    assert_eq!(h.projection().generation, 1);
    h.apply("add_d").unwrap();
    h.apply("reconcile_replace_dead_a").unwrap();
    let p = h.projection();
    assert_eq!(p.placement, numbers(&[2, 3, 4]));
    assert_eq!(p.generation, 2);
    assert_ne!(p.preferred_leader, 1);
    h.apply("reconcile_idempotent").unwrap();
    assert_eq!(h.projection(), p);
}

#[test]
fn a_drained_node_goes_once_nothing_needs_it() {
    let mut h = Harness::initial();
    h.apply("add_d").unwrap();
    h.apply("begin_drain_a").unwrap();
    assert_eq!(h.projection().draining, numbers(&[1]));
    h.apply("attempt_forget_a_rejected").unwrap();
    assert_eq!(h.projection().known, numbers(&[1, 2, 3, 4]), "still assigned");
    h.apply("evacuate_a").unwrap();
    assert_eq!(h.projection().hosted, numbers(&[2, 3]));
    h.apply("reconcile_replace_and_forget_drained_a").unwrap();
    let p = h.projection();
    assert_eq!(p.placement, numbers(&[2, 3, 4]));
    assert_eq!(p.known, numbers(&[2, 3, 4]));
    assert_eq!(p.forgotten, numbers(&[1]));
    assert_eq!(
        h.apply("begin_drain_a").unwrap_err(),
        "A was not present for drain"
    );
    assert_eq!(
        h.apply("lose_a_from_soft_membership").unwrap_err(),
        "A was not present for soft-membership loss"
    );
}

#[test]
fn a_follower_changes_nothing_and_a_cold_start_adopts() {
    let mut h = Harness::initial();
    h.apply("become_follower").unwrap();
    h.apply("add_d").unwrap();
    h.apply("begin_drain_a").unwrap();
    let p = h.projection();
    h.apply("reconcile_follower_hold").unwrap();
    assert_eq!(h.projection(), p);
    assert_eq!(
        h.apply("attempt_forget_a_rejected").unwrap_err(),
        "leader did not accept the stale ForgetNode proposal for evaluation"
    );

    let mut h = Harness::initial();
    h.apply("prepare_cold_start").unwrap();
    assert_eq!(h.projection().placement, numbers(&[]));
    assert_eq!(h.projection().observed_leader, 2);
    h.apply("reconcile_cold_adopt").unwrap();
    let p = h.projection();
    assert_eq!(p.placement, numbers(&[1, 2, 3]));
    assert_eq!(p.preferred_leader, 2);
}

#[test]
fn unheard_replicas_hold_a_placement() {
    let mut h = Harness::initial();
    h.apply("add_d").unwrap();
    h.apply("lose_a_from_soft_membership").unwrap();
    h.apply("reconcile_incomplete_hold").unwrap();
    assert_eq!(h.projection().placement, numbers(&[1, 2, 3]));
    h.apply("heartbeat_a").unwrap();
    assert_eq!(h.projection().known, numbers(&[1, 2, 3, 4]));
    h.apply("restore_snapshot_bcd").unwrap();
    assert_eq!(h.projection().placement, numbers(&[2, 3, 4]));
    assert_eq!(h.projection().preferred_leader, 2);
}

#[test]
fn unknown_actions_are_named() {
    let mut h = Harness::initial();
    assert_eq!(
        h.apply("jump \"high\"\n").unwrap_err(),
        "unsupported Quint scheduler action \"jump \\\"high\\\"\\n\""
    );
    h.apply("mark_a_dead").unwrap();
    assert_eq!(
        h.apply("mark_a_dead").unwrap_err(),
        "expected only A to become dead, got []"
    );
}

fn corpus() -> Vec<TraceFile> {
    let runs: Vec<Vec<&str>> = vec![
        vec![
            "idle",
            "reconcile_idempotent",
            "become_follower",
            "reconcile_follower_hold",
            "become_leader",
            "add_d",
            "lose_a_from_soft_membership",
            "reconcile_incomplete_hold",
            "heartbeat_a",
        ],
        vec!["mark_a_dead", "reconcile_degraded_hold", "add_d", "reconcile_replace_dead_a"],
        vec![
            "add_d",
            "begin_drain_a",
            "attempt_forget_a_rejected",
            "evacuate_a",
            "reconcile_replace_and_forget_drained_a",
        ],
        vec!["prepare_cold_start", "reconcile_cold_adopt"],
        vec![
            "add_d",
            "begin_drain_a",
            "evacuate_a",
            "restore_snapshot_bcd",
            "reconcile_forget_drained_a_after_placement",
        ],
    ];
    runs.iter()
        .enumerate()
        .map(|(i, run)| TraceFile {
            name: format!("run{i}.itf.json"),
            contents: Ok(file(&trace(run))),
        })
        .collect()
}

#[test]
fn a_complete_corpus_succeeds() {
    let traces = corpus();
    let r = replay_paths(&traces);
    assert!(r.mismatches.is_empty(), "{:?}", r.mismatches);
    assert!(r.success());
    assert_eq!(r.traces_total, 5);
    assert_eq!(r.traces_passed, 5);
    assert_eq!(r.states, 5 + 9 + 4 + 5 + 2 + 5);
    assert_eq!(r.non_idle_transitions, 24);
    for action in required_actions() {
        assert!(r.actions.contains(&action), "{action}");
    }
    assert_eq!(required_actions().len(), 19);
}

#[test]
fn a_corpus_with_gaps_fails() {
    let mut traces = corpus();
    traces.truncate(4);
    let r = replay_paths(&traces);
    assert!(!r.success());
    assert_eq!(r.traces_passed, 3, "a gap costs the last pass");
    assert_eq!(r.mismatches.len(), 1);
    let m = &r.mismatches[0];
    assert_eq!(m.trace, "run0.itf.json");
    assert_eq!(m.step, None);
    assert_eq!(
        m.action.as_deref(),
        Some("reconcile_forget_drained_a_after_placement")
    );
    assert_eq!(
        m.message,
        "trace corpus left production scheduler branches untested: \
         reconcile_forget_drained_a_after_placement, restore_snapshot_bcd"
    );
    match &m.actual {
        Json::Array(a) => assert_eq!(a[0].as_text().map(|t| t.as_str()), Some("add_d")),
        other => panic!("unexpected {other:?}"),
    }
    let none = replay_paths(&Vec::new());
    assert!(!none.success());
    assert_eq!(none.traces_total, 0);
    assert!(none.mismatches.is_empty());
}

#[test]
fn a_divergence_is_shown_where_it_happens() {
    let mut wrong = start();
    wrong.generation = 9;
    let doc = obj(vec![(
        "states",
        Json::Array(vec![step("init", &start()), step("idle", &wrong)]),
    )]);
    let m = replay_trace("t", &doc).err().unwrap();
    assert_eq!(m.trace, "t");
    assert_eq!(m.step, Some(1));
    assert_eq!(m.action.as_deref(), Some("idle"));
    assert_eq!(
        m.message,
        "production scheduler observable state diverged from Quint"
    );
    assert_eq!(m.expected.member("generation").as_unsigned(), Some(9));
    assert_eq!(m.actual.member("generation").as_unsigned(), Some(1));

    let bad_start = obj(vec![("states", Json::Array(vec![step("init", &wrong)]))]);
    assert_eq!(replay_trace("t", &bad_start).err().unwrap().step, Some(0));
}

#[test]
fn traces_that_cannot_be_read_say_why() {
    let message = |doc: &Json| replay_trace("t", doc).err().unwrap().message;
    assert_eq!(message(&Json::Null), "ITF trace has no states array");
    assert_eq!(
        message(&obj(vec![("states", Json::Array(vec![]))])),
        "ITF trace contains no states"
    );
    let nameless = obj(vec![(
        "states",
        Json::Array(vec![step("init", &start()), obj(vec![("s", state(&start()))])]),
    )]);
    assert_eq!(message(&nameless), "ITF state has no mbt::actionTaken");
    let unknown = obj(vec![(
        "states",
        Json::Array(vec![step("init", &start()), step("fly", &start())]),
    )]);
    assert_eq!(
        message(&unknown),
        "unsupported Quint scheduler action \"fly\""
    );
    let r = replay_paths(&vec![TraceFile {
        name: "x".to_string(),
        contents: Err("no such file".to_string()),
    }]);
    assert_eq!(r.mismatches.len(), 2);
    assert_eq!(r.mismatches[0].message, "no such file");
    assert_eq!(r.traces_passed, 0);
    let r = replay_traces(&vec![Trace {
        name: "x".to_string(),
        document: Err("not a trace".to_string()),
    }]);
    assert_eq!(r.mismatches[0].message, "not a trace");
}

#[test]
fn a_trace_is_read_out_of_its_bytes() {
    let run = trace(&["idle", "add_d"]);
    let t = replay_bytes("t", &file(&run)).ok().unwrap();
    assert_eq!(t.states, 3);
    assert_eq!(t.non_idle_transitions, 1);
    assert!(t.actions.contains("add_d"));

    let m = replay_bytes("t", b"{\"states\": [").err().unwrap();
    assert_eq!(m.trace, "t");
    assert_eq!(m.step, None);
    assert_eq!(m.action, None);
    assert_eq!(m.message, "EOF while parsing a list at line 1 column 12");
    let m = replay_bytes("t", b"").err().unwrap();
    assert_eq!(m.message, "EOF while parsing a value at line 1 column 0");
    let m = replay_bytes("t", b"{} {}").err().unwrap();
    assert_eq!(m.message, "trailing characters at line 1 column 4");
    let m = replay_bytes("t", b"{\"states\": []}").err().unwrap();
    assert_eq!(m.message, "ITF trace contains no states");
}

#[test]
fn every_kind_of_value_is_read_as_itself() {
    // What a state was expected to be is given back as it was read.
    let read = |text: &str| {
        let mut states = file(&obj(vec![("states", Json::Array(vec![step("init", &start())]))]));
        states.truncate(states.len() - 2);
        states.extend_from_slice(b", {\"mbt::actionTaken\": \"fly\", \"s\": ");
        states.extend_from_slice(text.as_bytes());
        states.extend_from_slice(b"}]}");
        replay_bytes("t", &states).err().unwrap().expected
    };
    assert!(matches!(read("null"), Json::Null));
    assert!(matches!(read("true"), Json::Bool(true)));
    assert!(matches!(read("18446744073709551615"), Json::Unsigned(u64::MAX)));
    assert!(matches!(read("-7"), Json::Signed(-7)));
    assert!(matches!(read("2.50"), Json::Float(t) if t == "2.5"));
    assert!(matches!(read("\"a\\u0062\""), Json::Text(t) if t == "ab"));
    assert!(matches!(read("[1, [], {}]"), Json::Array(v) if v.len() == 3));
    match read("{\"b\": 1, \"a\": 2, \"b\": 3}") {
        Json::Object(m) => {
            assert_eq!(m.len(), 2);
            assert!(matches!(m[0], (ref k, Json::Unsigned(2)) if k == "a"));
            assert!(matches!(m[1], (ref k, Json::Unsigned(3)) if k == "b"));
        }
        other => panic!("unexpected {other:?}"),
    }
}

#[test]
fn fields_are_read_as_sets_and_numbers() {
    assert_eq!(itf_bigint(&big(12), "f"), Ok(12));
    assert_eq!(itf_bigint(&Json::Unsigned(3), "f"), Ok(3));
    assert_eq!(
        itf_bigint(&text("12"), "f"),
        Err("ITF field f is not a non-negative integer".to_string())
    );
    assert_eq!(
        itf_bigint(&obj(vec![("#bigint", text("-1"))]), "f"),
        Err("ITF field f is not a non-negative integer".to_string())
    );
    assert_eq!(itf_set(&set(&numbers(&[3, 1])), "f"), Ok(numbers(&[1, 3])));
    assert_eq!(
        itf_set(&Json::Array(vec![]), "f"),
        Err("ITF field f is not a set".to_string())
    );
    assert_eq!(
        itf_set(&obj(vec![("#set", Json::Array(vec![Json::Null]))]), "f"),
        Err("ITF field f is not a non-negative integer".to_string())
    );
    assert_eq!(expected_projection(&state(&start())), Ok(start()));
    assert_eq!(
        expected_projection(&Json::Null),
        Err("ITF tagged value has no tag".to_string())
    );
    let shown = projection_json(&start());
    assert_eq!(shown.member("leader").clone().as_unsigned(), None);
    match shown.member("known") {
        Json::Array(a) => {
            let ns: Vec<Option<u64>> = a.iter().map(|j| j.as_unsigned()).collect();
            assert_eq!(ns, vec![Some(1), Some(2), Some(3)]);
        }
        other => panic!("unexpected {other:?}"),
    }
}

#[test]
fn trace_files_are_picked_and_sorted_by_component() {
    let path = |parts: &[&str]| parts.iter().map(|p| p.to_string()).collect::<Vec<String>>();
    let found = collect_itf_traces(&vec![
        path(&["b", "z.itf.json"]),
        path(&["a-b.itf.json"]),
        path(&["a", "y.json"]),
        path(&["a", "x.itf.json"]),
        path(&[".itf.json"]),
        path(&["readme.md"]),
        path(&[]),
    ]);
    assert_eq!(
        found,
        vec![
            path(&[".itf.json"]),
            path(&["a", "x.itf.json"]),
            path(&["a-b.itf.json"]),
            path(&["b", "z.itf.json"]),
        ]
    );
}

fn request() -> ReplayRequest {
    ReplayRequest {
        protocol: ADAPTER_PROTOCOL.to_string(),
        project: "fiducia-brain.rs".to_string(),
        model: "brain-scheduler".to_string(),
        adapter: "rust".to_string(),
        specification: "s.qnt".to_string(),
        specification_is_file: true,
        traces: vec![("t.itf.json".to_string(), true)],
    }
}

#[test]
fn requests_are_checked_in_order() {
    assert_eq!(check_request(&request()), Ok(()));
    let refused = |f: &dyn Fn(&mut ReplayRequest)| {
        let mut q = request();
        f(&mut q);
        check_request(&q).unwrap_err()
    };
    assert_eq!(
        refused(&|q| q.protocol = "v2".to_string()),
        "unsupported adapter protocol \"v2\""
    );
    assert_eq!(
        refused(&|q| q.adapter = "go".to_string()),
        "request selected a non-Rust adapter"
    );
    assert_eq!(
        refused(&|q| q.project = "x".to_string()),
        "unexpected project \"x\""
    );
    assert_eq!(refused(&|q| q.model = "m".to_string()), "unexpected model \"m\"");
    assert_eq!(
        refused(&|q| q.specification_is_file = false),
        "request specification is not a file: s.qnt"
    );
    assert_eq!(refused(&|q| q.traces.clear()), "request contains no traces");
    assert_eq!(
        refused(&|q| q.traces.push(("gone".to_string(), false))),
        "request trace is not a file: gone"
    );
}
