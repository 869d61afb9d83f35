//! Liveness oracle: the optional external signal of the failure detector.
//!
//! A pod reported gone or crash-looping is dead now. A pod that is running but briefly silent is a
//! network blip. Anything else falls back to pure timeouts. The oracle is conservative: it reports
//! `Gone` only on positive evidence, and a pod that is merely absent from a possibly stale cache
//! is `Unknown`.

use crate::ids::IdMap;
use crate::json;
use crate::json::{parse_document, Json, JsonModel};
use crate::text::text_eq;
use vstd::prelude::*;

verus! {

/// What an external oracle believes about a node's backing pod.
#[derive(Debug, Clone, Copy, PartialEq, Eq, Structural)]
pub enum PodLiveness {
    /// The pod exists and is running: silence is a blip, not death.
    Running,
    /// The pod is deleted, failed or crash-looping: dead now.
    Gone,
    /// No external signal: use timeouts.
    Unknown,
}

impl DeepView for PodLiveness {
    type V = PodLiveness;

    open spec fn deep_view(&self) -> PodLiveness {
        *self
    }
}

/// An external liveness signal the failure detector can consult. It is read-only.
pub trait LivenessOracle {
    /// What the oracle says about each node.
    spec fn verdict(&self, node_id: Seq<char>) -> PodLiveness;

    /// What does the external source of truth say about this node's pod?
    fn liveness(&self, node_id: &str) -> (r: PodLiveness)
        ensures
            r == self.verdict(node_id@),
    ;
}

/// No external oracle: every node is `Unknown`, so the detector uses timeouts alone.
pub struct NullOracle;

impl LivenessOracle for NullOracle {
    open spec fn verdict(&self, node_id: Seq<char>) -> PodLiveness {
        PodLiveness::Unknown
    }

    fn liveness(&self, _node_id: &str) -> (r: PodLiveness) {
        PodLiveness::Unknown
    }
}

/// How old a cache may be before it is no longer believed, in nanoseconds.
pub const STALE_AFTER_NANOS: u64 = 15_000_000_000;

/// A cache of pod status, with the time it was filled and the time it is read, both in nanoseconds
/// on one monotonic clock.
pub struct KubeOracle {
    pods: IdMap<PodLiveness>,
    updated_at: Option<u64>,
    now: u64,
}

impl KubeOracle {
    /// The cached status of each pod.
    pub closed spec fn pods(&self) -> Map<Seq<char>, PodLiveness> {
        self.pods@
    }

    /// When the cache was filled, if ever.
    pub closed spec fn updated_at(&self) -> Option<u64> {
        self.updated_at
    }

    /// The time at which the cache is read.
    pub closed spec fn now(&self) -> u64 {
        self.now
    }

    /// An oracle that was never told anything.
    pub fn new() -> (r: Self)
        ensures
            r.pods() == Map::<Seq<char>, PodLiveness>::empty(),
            r.updated_at() is None,
            r.now() == 0,
    {
        KubeOracle { pods: IdMap::new(), updated_at: None, now: 0 }
    }

    /// Replaces the cache.
    pub fn refresh(&mut self, pods: IdMap<PodLiveness>, at: u64)
        ensures
            final(self).pods() == pods@,
            final(self).updated_at() == Some(at),
            final(self).now() == old(self).now(),
    {
        self.pods = pods;
        self.updated_at = Some(at);
    }

    /// Sets the time at which the cache is read.
    pub fn set_now(&mut self, now: u64)
        ensures
            final(self).pods() == old(self).pods(),
            final(self).updated_at() == old(self).updated_at(),
            final(self).now() == now,
    {
        self.now = now;
    }
}

/// What a cache says about a node: the status of a known pod while the cache is fresh, and nothing
/// otherwise.
pub open spec fn cached_verdict(
    pods: Map<Seq<char>, PodLiveness>,
    updated_at: Option<u64>,
    now: u64,
    node_id: Seq<char>,
) -> PodLiveness {
    if updated_at is Some && now - updated_at->0 <= STALE_AFTER_NANOS && pods.dom().contains(
        node_id,
    ) {
        pods[node_id]
    } else {
        PodLiveness::Unknown
    }
}

impl LivenessOracle for KubeOracle {
    open spec fn verdict(&self, node_id: Seq<char>) -> PodLiveness {
        cached_verdict(self.pods(), self.updated_at(), self.now(), node_id)
    }

    fn liveness(&self, node_id: &str) -> (r: PodLiveness) {
        match self.updated_at {
            Some(at) => if self.now <= at || self.now - at <= STALE_AFTER_NANOS {
                match self.pods.get(node_id) {
                    Some(v) => *v,
                    None => PodLiveness::Unknown,
                }
            } else {
                PodLiveness::Unknown
            },
            None => PodLiveness::Unknown,
        }
    }
}

/// Whether a container status reports a crash loop.
pub open spec fn crash_looping(status: JsonModel) -> bool {
    status.member("state"@).member("waiting"@).member("reason"@).as_text() == Some(
        "CrashLoopBackOff"@,
    )
}

/// Whether any container status reports a crash loop.
pub open spec fn any_crash_looping(statuses: Seq<JsonModel>) -> bool {
    exists|i: int| 0 <= i < statuses.len() && crash_looping(#[trigger] statuses[i])
}

/// The verdict on one pod object, on positive evidence only.
pub open spec fn pod_verdict(pod: JsonModel) -> PodLiveness {
    let phase = pod.member("status"@).member("phase"@).as_text();
    let statuses = pod.member("status"@).member("containerStatuses"@).as_array();
    if pod.member("metadata"@).member("deletionTimestamp"@).as_text() is Some {
        PodLiveness::Gone
    } else if phase == Some("Failed"@) {
        PodLiveness::Gone
    } else if statuses is Some && any_crash_looping(statuses->0) {
        PodLiveness::Gone
    } else if phase == Some("Running"@) {
        PodLiveness::Running
    } else {
        PodLiveness::Unknown
    }
}

/// The verdicts on a list of pod objects, by pod name; a later pod of the same name counts.
pub open spec fn pod_verdicts(pods: Seq<JsonModel>) -> Map<Seq<char>, PodLiveness>
    decreases pods.len(),
{
    if pods.len() == 0 {
        Map::empty()
    } else {
        let before = pod_verdicts(pods.drop_last());
        match pods.last().member("metadata"@).member("name"@).as_text() {
            Some(name) => before.insert(name, pod_verdict(pods.last())),
            None => before,
        }
    }
}

/// The verdicts on a pod list document.
pub open spec fn listed_verdicts(list: JsonModel) -> Map<Seq<char>, PodLiveness> {
    match list.member("items"@).as_array() {
        Some(items) => pod_verdicts(items),
        None => Map::empty(),
    }
}

fn text_is(value: &Json, expected: &str) -> (r: bool)
    ensures
        r == (value.deep_view().as_text() == Some(expected@)),
{
    match value.as_text() {
        Some(t) => text_eq(t.as_str(), expected),
        None => false,
    }
}

/// A single pod object to a liveness verdict.
pub fn pod_liveness(pod: &Json) -> (r: PodLiveness)
    ensures
        r == pod_verdict(pod.deep_view()),
{
    if pod.member("metadata").member("deletionTimestamp").as_text().is_some() {
        return PodLiveness::Gone;
    }
    let phase = pod.member("status").member("phase");
    if text_is(phase, "Failed") {
        return PodLiveness::Gone;
    }
    if let Some(statuses) = pod.member("status").member("containerStatuses").as_array() {
        let ghost model = statuses.deep_view();
        let mut i: usize = 0;
        while i < statuses.len()
            invariant
                i <= statuses.len(),
                model == statuses.deep_view(),
                forall|k: int| 0 <= k < i ==> !crash_looping(#[trigger] model[k]),
                pod.deep_view().member("status"@).member("containerStatuses"@).as_array() == Some(
                    model,
                ),
                pod.deep_view().member("metadata"@).member("deletionTimestamp"@).as_text() is None,
                pod.deep_view().member("status"@).member("phase"@).as_text() != Some("Failed"@),
            decreases statuses.len() - i,
        {
            assert(model[i as int] == statuses@[i as int].deep_view());
            if text_is(statuses[i].member("state").member("waiting").member("reason"), "CrashLoopBackOff") {
                assert(crash_looping(model[i as int]));
                assert(any_crash_looping(model));
                return PodLiveness::Gone;
            }
            i += 1;
        }
    }
    if text_is(phase, "Running") {
        return PodLiveness::Running;
    }
    PodLiveness::Unknown
}

/// A pod list document to verdicts by pod name.
pub fn parse_pod_list(list: &Json) -> (r: IdMap<PodLiveness>)
    ensures
        r@ == listed_verdicts(list.deep_view()),
{
    let mut map: IdMap<PodLiveness> = IdMap::new();
    if let Some(items) = list.member("items").as_array() {
        let ghost model = items.deep_view();
        let mut i: usize = 0;
        while i < items.len()
            invariant
                i <= items.len(),
                model == items.deep_view(),
                map@ == pod_verdicts(model.take(i as int)),
            decreases items.len() - i,
        {
            assert(model.take(i + 1).drop_last() =~= model.take(i as int));
            assert(model.take(i + 1).last() == items@[i as int].deep_view());
            if let Some(name) = items[i].member("metadata").member("name").as_text() {
                map.insert(name.clone(), pod_liveness(&items[i]));
            }
            i += 1;
        }
        assert(model.take(model.len() as int) =~= model);
    }
    map
}

/// The body of a pod list response to verdicts by pod name; `None` where it is not a document.
pub fn parse_pod_body(body: &[u8]) -> (r: Option<IdMap<PodLiveness>>)
    ensures
        match json::document_of(body@) {
            Ok(list) => r matches Some(map) && map@ == listed_verdicts(list),
            Err(_) => r is None,
        },
{
    match parse_document(body) {
        Ok(list) => Some(parse_pod_list(&list)),
        Err(_) => None,
    }
}

/// A pod that the cache does not list is never reported gone, nor is any pod of a stale cache.
pub proof fn absence_is_not_death(
    pods: Map<Seq<char>, PodLiveness>,
    updated_at: Option<u64>,
    now: u64,
    node_id: Seq<char>,
)
    requires
        !pods.dom().contains(node_id) || updated_at is None || now - updated_at->0
            > STALE_AFTER_NANOS,
    ensures
        cached_verdict(pods, updated_at, now, node_id) == PodLiveness::Unknown,
{
}


/// Whether a document holds a text at the end of a path of members.
pub open spec fn holds_text(doc: JsonModel, path: Seq<Seq<char>>, text: Seq<char>) -> bool
    decreases path.len(),
{
    if path.len() == 0 {
        doc == JsonModel::Text(text)
    } else {
        holds_text(doc.member(path[0]), path.drop_first(), text)
    }
}

proof fn text_at_one(doc: JsonModel, a: Seq<char>, text: Seq<char>)
    ensures
        holds_text(doc, seq![a], text) == (doc.member(a) == JsonModel::Text(text)),
{
    assert(seq![a].drop_first() =~= Seq::<Seq<char>>::empty());
    reveal_with_fuel(holds_text, 2);
}

proof fn text_at_two(doc: JsonModel, a: Seq<char>, b: Seq<char>, text: Seq<char>)
    ensures
        holds_text(doc, seq![a, b], text) == (doc.member(a).member(b) == JsonModel::Text(text)),
{
    assert(seq![a, b].drop_first() =~= seq![b]);
    text_at_one(doc.member(a), b, text);
}

proof fn text_at_three(doc: JsonModel, a: Seq<char>, b: Seq<char>, c: Seq<char>, text: Seq<char>)
    ensures
        holds_text(doc, seq![a, b, c], text) == (doc.member(a).member(b).member(c)
            == JsonModel::Text(text)),
{
    assert(seq![a, b, c].drop_first() =~= seq![b, c]);
    text_at_two(doc.member(a), b, c, text);
}

/// A pod is gone exactly where it has a time of deletion, its phase is `Failed`, or one of its
/// containers waits in a crash loop; it runs exactly where it is not gone and its phase is
/// `Running`; and nothing is known of it otherwise.
pub proof fn pods_are_judged_on_evidence(pod: JsonModel)
    ensures
        ({
            let deleted = pod.member("metadata"@).member("deletionTimestamp"@) is Text;
            let failed = holds_text(pod, seq!["status"@, "phase"@], "Failed"@);
            let running = holds_text(pod, seq!["status"@, "phase"@], "Running"@);
            let looping = pod.member("status"@).member("containerStatuses"@) matches
                JsonModel::Array(items) && exists|i: int|
                0 <= i < items.len() && holds_text(
                    #[trigger] items[i],
                    seq!["state"@, "waiting"@, "reason"@],
                    "CrashLoopBackOff"@,
                );
            let gone = deleted || failed || looping;
            &&& pod_verdict(pod) == PodLiveness::Gone <==> gone
            &&& pod_verdict(pod) == PodLiveness::Running <==> !gone && running
            &&& pod_verdict(pod) == PodLiveness::Unknown <==> !gone && !running
        }),
{
    text_at_two(pod, "status"@, "phase"@, "Failed"@);
    text_at_two(pod, "status"@, "phase"@, "Running"@);
    if let JsonModel::Array(items) = pod.member("status"@).member("containerStatuses"@) {
        assert forall|i: int| 0 <= i < items.len() implies crash_looping(#[trigger] items[i])
            == holds_text(
            items[i],
            seq!["state"@, "waiting"@, "reason"@],
            "CrashLoopBackOff"@,
        ) by {
            text_at_three(items[i], "state"@, "waiting"@, "reason"@, "CrashLoopBackOff"@);
        }
    }
    phases_differ();
}

proof fn phases_differ()
    ensures
        "Failed"@ != "Running"@,
{
    reveal_strlit("Failed");
    reveal_strlit("Running");
    assert("Failed"@.len() != "Running"@.len());
}

/// The verdicts of a pod list are those on the pods that have a name, the last where several have
/// the same.
pub proof fn listed_pods_are_judged(items: Seq<JsonModel>, name: Seq<char>)
    ensures
        ({
            let map = pod_verdicts(items);
            ||| exists|i: int|
                0 <= i < items.len() && (#[trigger] items[i]).member("metadata"@).member("name"@)
                    == JsonModel::Text(name) && map.dom().contains(name) && map[name]
                    == pod_verdict(items[i]) && forall|j: int|
                    i < j < items.len() ==> (#[trigger] items[j]).member("metadata"@).member(
                        "name"@,
                    ) != JsonModel::Text(name)
            ||| !map.dom().contains(name) && forall|j: int|
                0 <= j < items.len() ==> (#[trigger] items[j]).member("metadata"@).member("name"@)
                    != JsonModel::Text(name)
        }),
        forall|list: JsonModel|
            list.member("items"@) == JsonModel::Array(items) ==> #[trigger] listed_verdicts(list)
                == pod_verdicts(items),
    decreases items.len(),
{
    if items.len() > 0 {
        let rest = items.drop_last();
        let last = items[items.len() - 1];
        let map = pod_verdicts(items);
        let before = pod_verdicts(rest);
        listed_pods_are_judged(rest, name);
        if last.member("metadata"@).member("name"@) == JsonModel::Text(name) {
            assert(items[items.len() - 1].member("metadata"@).member("name"@) == JsonModel::Text(
                name,
            ));
        } else {
            assert(map.dom().contains(name) == before.dom().contains(name));
            if before.dom().contains(name) {
                let i = choose|i: int|
                    0 <= i < rest.len() && (#[trigger] rest[i]).member("metadata"@).member("name"@)
                        == JsonModel::Text(name) && before[name] == pod_verdict(rest[i])
                        && forall|j: int|
                        i < j < rest.len() ==> (#[trigger] rest[j]).member("metadata"@).member(
                            "name"@,
                        ) != JsonModel::Text(name);
                assert(items[i] == rest[i]);
                assert forall|j: int| i < j < items.len() implies (
                #[trigger] items[j]).member("metadata"@).member("name"@) != JsonModel::Text(
                    name,
                ) by {
                    if j < rest.len() {
                        assert(rest[j] == items[j]);
                    }
                }
            } else {
                assert forall|j: int| 0 <= j < items.len() implies (
                #[trigger] items[j]).member("metadata"@).member("name"@) != JsonModel::Text(
                    name,
                ) by {
                    if j < rest.len() {
                        assert(rest[j] == items[j]);
                    }
                }
            }
        }
    }
}

/// A cache is believed for fifteen seconds: what it lists counts until then, and nothing does later
/// or where it was never filled.
pub proof fn caches_are_believed_for_a_while(
    pods: Map<Seq<char>, PodLiveness>,
    at: u64,
    now: u64,
    node_id: Seq<char>,
)
    ensures
        now <= at + 15_000_000_000 && pods.dom().contains(node_id) ==> cached_verdict(
            pods,
            Some(at),
            now,
            node_id,
        ) == pods[node_id],
        now > at + 15_000_000_000 || !pods.dom().contains(node_id) ==> cached_verdict(
            pods,
            Some(at),
            now,
            node_id,
        ) == PodLiveness::Unknown,
        cached_verdict(pods, None, now, node_id) == PodLiveness::Unknown,
{
}

} // verus!
