//! The decisions behind the control-plane API: what a report may claim, who answers a write, and
//! what the status says.

use crate::config::SUPPORTED_REPLICATION_FACTOR;
use crate::decimal::append_text;
use crate::ids::{IdMap, IdSet};
use crate::membership;
use crate::membership::Membership;
use crate::model::{
    AssignmentModel, HeartbeatReport, NodeHealth, NodeId, NodeInfo, NodeModel, PlacementPolicy,
    PlacementPolicyUpdate, PolicyModel, ReportModel, ScalePlan, ShardAssignment, ShardId,
};
use crate::status_laws;
use crate::text;
use crate::text::{from_chars, text_eq, to_chars};
use vstd::prelude::*;

verus! {

/// The shards that `allowed` names, each once, in order.
pub open spec fn shards_within(shards: Seq<ShardId>, allowed: spec_fn(ShardId) -> bool) -> Seq<
    ShardId,
>
    decreases shards.len(),
{
    if shards.len() == 0 {
        Seq::empty()
    } else {
        let before = shards_within(shards.drop_last(), allowed);
        if allowed(shards.last()) && !before.contains(shards.last()) {
            before.push(shards.last())
        } else {
            before
        }
    }
}

/// A report with the claims dropped that the cluster cannot bear out: shards that do not exist,
/// shards named twice, and leadership of a shard that is not hosted.
pub open spec fn sanitized(report: ReportModel, shard_count: u32) -> ReportModel {
    let hosted = shards_within(report.hosted_shards, |s: ShardId| s < shard_count);
    ReportModel {
        hosted_shards: hosted,
        leading_shards: shards_within(report.leading_shards, |s: ShardId| hosted.contains(s)),
        ..report
    }
}

fn holds_shard(shards: &Vec<ShardId>, shard: ShardId) -> (r: bool)
    ensures
        r == shards@.contains(shard),
{
    let mut i: usize = 0;
    while i < shards.len()
        invariant
            i <= shards.len(),
            forall|k: int| 0 <= k < i ==> shards@[k] != shard,
        decreases shards.len() - i,
    {
        if shards[i] == shard {
            assert(shards@[i as int] == shard);
            return true;
        }
        i += 1;
    }
    false
}

/// Validates reported shards at the trust boundary.
pub fn sanitize_report(report: &mut HeartbeatReport, shard_count: u32)
    ensures
        final(report).deep_view() == sanitized(old(report).deep_view(), shard_count),
{
    let ghost in_range = |s: ShardId| s < shard_count;
    let ghost claimed = report.hosted_shards@;
    let mut hosted: Vec<ShardId> = Vec::new();
    let mut i: usize = 0;
    assert(hosted@ =~= shards_within(claimed.take(0), in_range));
    while i < report.hosted_shards.len()
        invariant
            i <= report.hosted_shards.len(),
            *report == *old(report),
            claimed == report.hosted_shards@,
            in_range == |s: ShardId| s < shard_count,
            hosted@ == shards_within(claimed.take(i as int), in_range),
        decreases report.hosted_shards.len() - i,
    {
        assert(claimed.take(i + 1).drop_last() =~= claimed.take(i as int));
        let shard: ShardId = report.hosted_shards[i];
        if shard < shard_count && !holds_shard(&hosted, shard) {
            hosted.push(shard);
        }
        i += 1;
    }
    assert(claimed.take(claimed.len() as int) =~= claimed);
    let ghost h = hosted@;
    let ghost is_hosted = |s: ShardId| h.contains(s);
    let ghost led = report.leading_shards@;
    let mut leading: Vec<ShardId> = Vec::new();
    let mut k: usize = 0;
    assert(leading@ =~= shards_within(led.take(0), is_hosted));
    while k < report.leading_shards.len()
        invariant
            k <= report.leading_shards.len(),
            *report == *old(report),
            led == report.leading_shards@,
            h == hosted@,
            is_hosted == |s: ShardId| h.contains(s),
            leading@ == shards_within(led.take(k as int), is_hosted),
        decreases report.leading_shards.len() - k,
    {
        assert(led.take(k + 1).drop_last() =~= led.take(k as int));
        let shard: ShardId = report.leading_shards[k];
        if holds_shard(&hosted, shard) && !holds_shard(&leading, shard) {
            leading.push(shard);
        }
        k += 1;
    }
    assert(led.take(led.len() as int) =~= led);
    report.hosted_shards = hosted;
    report.leading_shards = leading;
}

/// Of the shards those are left that are allowed, each once.
pub proof fn shards_within_claims(shards: Seq<ShardId>, allowed: spec_fn(ShardId) -> bool)
    ensures
        shards_within(shards, allowed).no_duplicates(),
        forall|s: ShardId| #[trigger]
            shards_within(shards, allowed).contains(s) <==> shards.contains(s) && allowed(s),
    decreases shards.len(),
{
    if shards.len() > 0 {
        let rest = shards.drop_last();
        shards_within_claims(rest, allowed);
        let before = shards_within(rest, allowed);
        let now = shards_within(shards, allowed);
        assert forall|s: ShardId| #[trigger] now.contains(s) <==> shards.contains(s) && allowed(
            s,
        ) by {
            if now.contains(s) {
                let x = now.index_of(s);
                if x < before.len() {
                    assert(before[x] == s);
                    assert(before.contains(s));
                    assert(shards[rest.index_of(s)] == s);
                } else {
                    assert(shards[shards.len() - 1] == s);
                }
            }
            if shards.contains(s) && allowed(s) {
                let x = shards.index_of(s);
                if x < rest.len() {
                    assert(rest[x] == s);
                    assert(before.contains(s));
                    assert(now[before.index_of(s)] == s);
                } else if before.contains(s) {
                    assert(now[before.index_of(s)] == s);
                } else {
                    assert(now[before.len() as int] == s);
                }
            }
        }
        assert forall|i: int, j: int| 0 <= i < now.len() && 0 <= j < now.len() && i != j implies now[i]
            != now[j] by {
            if i == before.len() {
                assert(before.contains(now[j]) || !before.contains(now[j]));
                assert(before[j] == now[j]);
            } else if j == before.len() {
                assert(before[i] == now[i]);
            }
        }
    }
}

/// A sanitized report names every shard once, only shards that exist, and claims to lead only
/// what it hosts; everything it could honestly claim it still claims.
pub proof fn sanitized_reports_are_sound(report: ReportModel, shard_count: u32, s: ShardId)
    ensures
        ({
            let r = sanitized(report, shard_count);
            &&& r.hosted_shards.no_duplicates()
            &&& r.leading_shards.no_duplicates()
            &&& r.hosted_shards.contains(s) <==> report.hosted_shards.contains(s) && s
                < shard_count
            &&& r.leading_shards.contains(s) <==> report.leading_shards.contains(s)
                && r.hosted_shards.contains(s)
        }),
{
    let hosted = shards_within(report.hosted_shards, |x: ShardId| x < shard_count);
    shards_within_claims(report.hosted_shards, |x: ShardId| x < shard_count);
    shards_within_claims(report.leading_shards, |x: ShardId| hosted.contains(x));
}

/// A text without the slashes at its end.
pub open spec fn unslashed(s: Seq<char>) -> Seq<char>
    decreases s.len(),
{
    if s.len() > 0 && s.last() == '/' {
        unslashed(s.drop_last())
    } else {
        s
    }
}

/// An address under a base that may end in slashes.
pub fn address_under(base: &str, path: &str) -> (r: String)
    ensures
        r@ == unslashed(base@) + path@,
{
    let mut chars = to_chars(base);
    while chars.len() > 0 && chars[chars.len() - 1] == '/'
        invariant
            unslashed(base@) == unslashed(chars@),
        decreases chars.len(),
    {
        let ghost was = chars@;
        let _ = chars.pop();
        assert(chars@ =~= was.drop_last());
    }
    let mut r = from_chars(&chars);
    append_text(&mut r, path);
    r
}

/// Where a write is dealt with.
#[derive(Debug)]
pub enum Route {
    /// Nowhere: this member is unavailable until restart.
    Unavailable,
    /// Here.
    Here,
    /// At the leader, under this address.
    Forward(String),
    /// Nowhere yet: no leader is known.
    NotLeader,
}

/// The value of a [`Route`].
pub enum RouteModel {
    Unavailable,
    Here,
    Forward(Seq<char>),
    NotLeader,
}

impl DeepView for Route {
    type V = RouteModel;

    open spec fn deep_view(&self) -> RouteModel {
        match self {
            Route::Unavailable => RouteModel::Unavailable,
            Route::Here => RouteModel::Here,
            Route::Forward(url) => RouteModel::Forward(url@),
            Route::NotLeader => RouteModel::NotLeader,
        }
    }
}

/// How a member stands in the group.
#[derive(Debug)]
pub struct Standing {
    pub available: bool,
    pub leader: bool,
    pub leader_addr: Option<String>,
}

/// The value of a [`Standing`].
pub struct StandingModel {
    pub available: bool,
    pub leader: bool,
    pub leader_addr: Option<Seq<char>>,
}

impl DeepView for Standing {
    type V = StandingModel;

    open spec fn deep_view(&self) -> StandingModel {
        StandingModel {
            available: self.available,
            leader: self.leader,
            leader_addr: self.leader_addr.deep_view(),
        }
    }
}

/// Where a write of soft state is dealt with: at the leader, or mid-election here as well as it
/// goes.
pub open spec fn soft_route(s: StandingModel, path: Seq<char>) -> RouteModel {
    if !s.available {
        RouteModel::Unavailable
    } else if !s.leader && s.leader_addr is Some {
        RouteModel::Forward(unslashed(s.leader_addr->0) + path)
    } else {
        RouteModel::Here
    }
}

/// Where a write that steers the leader is dealt with: at the leader alone.
pub open spec fn hard_route(s: StandingModel, path: Seq<char>) -> RouteModel {
    if !s.available {
        RouteModel::Unavailable
    } else if s.leader {
        RouteModel::Here
    } else {
        match s.leader_addr {
            Some(l) => RouteModel::Forward(unslashed(l) + path),
            None => RouteModel::NotLeader,
        }
    }
}

/// Where a write of soft state is dealt with.
pub fn route_soft(s: &Standing, path: &str) -> (r: Route)
    ensures
        r.deep_view() == soft_route(s.deep_view(), path@),
{
    if !s.available {
        return Route::Unavailable;
    }
    if !s.leader {
        if let Some(l) = &s.leader_addr {
            return Route::Forward(address_under(l.as_str(), path));
        }
    }
    Route::Here
}

/// Where a write that steers the leader is dealt with.
pub fn route_hard(s: &Standing, path: &str) -> (r: Route)
    ensures
        r.deep_view() == hard_route(s.deep_view(), path@),
{
    if !s.available {
        return Route::Unavailable;
    }
    if s.leader {
        return Route::Here;
    }
    match &s.leader_addr {
        Some(l) => Route::Forward(address_under(l.as_str(), path)),
        None => Route::NotLeader,
    }
}

/// The path of a node.
pub open spec fn node_path(id: Seq<char>) -> Seq<char> {
    "/v1/nodes/"@ + id
}

fn path_of_node(id: &str) -> (r: String)
    ensures
        r@ == node_path(id@),
{
    let mut r = "/v1/nodes/".to_owned();
    append_text(&mut r, id);
    r
}

/// What a heartbeat leads to.
#[derive(Debug)]
pub enum HeartbeatOutcome {
    Unavailable,
    /// Post this report to this address.
    Forward(String, HeartbeatReport),
    /// Recorded here; this is the node's health now.
    Recorded(NodeHealth),
}

/// Takes a heartbeat: an unavailable member refuses it, a follower that knows the leader forwards
/// it there, and anyone else records it. What is forwarded or recorded is sanitized.
pub fn heartbeat(
    membership: &mut Membership,
    s: &Standing,
    node_id: &NodeId,
    now_ms: u64,
    report: HeartbeatReport,
    shard_count: u32,
) -> (r: HeartbeatOutcome)
    ensures
        final(membership).config() == old(membership).config(),
        match soft_route(s.deep_view(), node_path(node_id@) + "/heartbeat"@) {
            RouteModel::Unavailable => r is Unavailable && final(membership).nodes() == old(
                membership,
            ).nodes(),
            RouteModel::Forward(url) => final(membership).nodes() == old(membership).nodes() && (
            r matches HeartbeatOutcome::Forward(u, fwd) && u@ == url && fwd.deep_view()
                == sanitized(report.deep_view(), shard_count)),
            _ => {
                let node = if old(membership).nodes().dom().contains(node_id@) {
                    Some(old(membership).nodes()[node_id@])
                } else {
                    None
                };
                let clean = sanitized(report.deep_view(), shard_count);
                &&& final(membership).nodes() == if membership::outdated(node, clean) {
                    old(membership).nodes()
                } else {
                    old(membership).nodes().insert(
                        node_id@,
                        membership::reported(node, node_id@, now_ms, clean),
                    )
                }
                &&& r == HeartbeatOutcome::Recorded(final(membership).nodes()[node_id@].health)
            },
        },
{
    let mut report = report;
    let mut path = path_of_node(node_id.as_str());
    append_text(&mut path, "/heartbeat");
    let route = route_soft(s, path.as_str());
    sanitize_report(&mut report, shard_count);
    match route {
        Route::Unavailable => HeartbeatOutcome::Unavailable,
        Route::Forward(url) => HeartbeatOutcome::Forward(url, report),
        _ => HeartbeatOutcome::Recorded(membership.heartbeat(node_id, now_ms, report)),
    }
}

/// What a removal request leads to.
#[derive(Debug)]
pub enum RemoveOutcome {
    Unavailable,
    /// Send the request to this address.
    Forward(String),
    /// Whether the node was known and is now draining.
    Draining(bool),
}

/// Begins draining a node, here or at the leader.
pub fn remove_node(membership: &mut Membership, s: &Standing, node_id: &NodeId) -> (r:
    RemoveOutcome)
    ensures
        final(membership).config() == old(membership).config(),
        match soft_route(s.deep_view(), node_path(node_id@)) {
            RouteModel::Unavailable => r is Unavailable && final(membership).nodes() == old(
                membership,
            ).nodes(),
            RouteModel::Forward(url) => final(membership).nodes() == old(membership).nodes() && (
            r matches RemoveOutcome::Forward(u) && u@ == url),
            _ => {
                let known = old(membership).nodes().dom().contains(node_id@);
                &&& r == RemoveOutcome::Draining(known)
                &&& final(membership).nodes() == if known {
                    old(membership).nodes().insert(
                        node_id@,
                        NodeModel {
                            health: NodeHealth::Draining,
                            ..old(membership).nodes()[node_id@]
                        },
                    )
                } else {
                    old(membership).nodes()
                }
            },
        },
{
    let path = path_of_node(node_id.as_str());
    match route_soft(s, path.as_str()) {
        Route::Unavailable => RemoveOutcome::Unavailable,
        Route::Forward(url) => RemoveOutcome::Forward(url),
        _ => RemoveOutcome::Draining(membership.drain(node_id)),
    }
}

/// What a policy write leads to.
#[derive(Debug)]
pub enum PolicyOutcome {
    Unavailable,
    NamespaceRequired,
    /// Post the update as it came to this address.
    Forward(String),
    NotLeader,
    /// Set a policy for this namespace.
    Accept { namespace: String },
}

/// Decides on a policy write: it needs a namespace, and only the leader takes it.
pub fn policy_request(s: &Standing, update: &PlacementPolicyUpdate) -> (r: PolicyOutcome)
    ensures
        ({
            let namespace = text::trimmed(update.namespace@);
            if !s.available {
                r is Unavailable
            } else if namespace.len() == 0 {
                r is NamespaceRequired
            } else {
                match hard_route(s.deep_view(), "/v1/policies"@) {
                    RouteModel::Unavailable => false,
                    RouteModel::Here => r matches PolicyOutcome::Accept { namespace: n } && n@
                        == namespace,
                    RouteModel::Forward(url) => r matches PolicyOutcome::Forward(u) && u@ == url,
                    RouteModel::NotLeader => r is NotLeader,
                }
            }
        }),
{
    if !s.available {
        return PolicyOutcome::Unavailable;
    }
    let namespace = update.namespace.as_str().trim();
    if namespace.is_empty() {
        return PolicyOutcome::NamespaceRequired;
    }
    match route_hard(s, "/v1/policies") {
        Route::Unavailable => PolicyOutcome::Unavailable,
        Route::Here => PolicyOutcome::Accept { namespace: namespace.to_owned() },
        Route::Forward(url) => PolicyOutcome::Forward(url),
        Route::NotLeader => PolicyOutcome::NotLeader,
    }
}

/// A wish that says something.
pub open spec fn said(wish: Option<Seq<char>>) -> Option<Seq<char>> {
    match wish {
        Some(w) => if text::trimmed(w).len() > 0 {
            Some(w)
        } else {
            None
        },
        None => None,
    }
}

fn said_wish(wish: Option<String>) -> (r: Option<String>)
    ensures
        r.deep_view() == said(wish.deep_view()),
{
    match wish {
        Some(w) => if w.as_str().trim().is_empty() {
            None
        } else {
            Some(w)
        },
        None => None,
    }
}

/// The policy that an accepted update sets for the shard its namespace belongs to.
pub fn accepted_policy(update: PlacementPolicyUpdate, namespace: String, shard_id: ShardId) -> (r:
    PlacementPolicy)
    ensures
        r.deep_view() == (PolicyModel {
            namespace: namespace@,
            shard_id,
            home_region: said(update.home_region.deep_view()),
            preferred_cloud_provider: said(update.preferred_cloud_provider.deep_view()),
        }),
{
    PlacementPolicy {
        namespace,
        shard_id,
        home_region: said_wish(update.home_region),
        preferred_cloud_provider: said_wish(update.preferred_cloud_provider),
    }
}

/// The scale plan a request asks for: the replication factor is fixed, and the number of nodes is
/// at least that.
pub fn requested_plan(plan: ScalePlan) -> (r: ScalePlan)
    ensures
        r.replication_factor == SUPPORTED_REPLICATION_FACTOR,
        r.target_nodes == if plan.target_nodes >= SUPPORTED_REPLICATION_FACTOR {
            plan.target_nodes
        } else {
            SUPPORTED_REPLICATION_FACTOR
        },
{
    ScalePlan {
        target_nodes: if plan.target_nodes >= SUPPORTED_REPLICATION_FACTOR {
            plan.target_nodes
        } else {
            SUPPORTED_REPLICATION_FACTOR
        },
        replication_factor: SUPPORTED_REPLICATION_FACTOR,
    }
}

/// What a scale request leads to once the plan was proposed here: accepted, forwarded to the
/// leader, or refused while none is known.
pub fn scale_route(s: &Standing, applied: bool) -> (r: Route)
    ensures
        r.deep_view() == if !s.available {
            RouteModel::Unavailable
        } else if applied {
            RouteModel::Here
        } else {
            match s.deep_view().leader_addr {
                Some(l) => RouteModel::Forward(unslashed(l) + "/v1/scale"@),
                None => RouteModel::NotLeader,
            }
        },
{
    if !s.available {
        return Route::Unavailable;
    }
    if applied {
        return Route::Here;
    }
    match &s.leader_addr {
        Some(l) => Route::Forward(address_under(l.as_str(), "/v1/scale")),
        None => Route::NotLeader,
    }
}

/// An unavailable member acknowledges nothing, not even soft state.
pub proof fn unavailable_members_acknowledge_nothing(s: StandingModel, path: Seq<char>)
    requires
        !s.available,
    ensures
        soft_route(s, path) == RouteModel::Unavailable,
        hard_route(s, path) == RouteModel::Unavailable,
{
}

/// The name of a health.
pub open spec fn name_of_health(health: NodeHealth) -> Seq<char> {
    match health {
        NodeHealth::Healthy => "healthy"@,
        NodeHealth::Suspect => "suspect"@,
        NodeHealth::Dead => "dead"@,
        NodeHealth::Draining => "draining"@,
    }
}

/// The name of a health.
pub fn health_name(health: NodeHealth) -> (r: &'static str)
    ensures
        r@ == name_of_health(health),
{
    match health {
        NodeHealth::Healthy => "healthy",
        NodeHealth::Suspect => "suspect",
        NodeHealth::Dead => "dead",
        NodeHealth::Draining => "draining",
    }
}

/// A value in comparable form, or the word for not knowing it.
pub open spec fn known_or_unknown(value: Seq<char>) -> Seq<char> {
    if text::trimmed(value).len() > 0 {
        membership::normal(value)
    } else {
        "unknown"@
    }
}

/// A value in comparable form, or the word for not knowing it.
pub fn non_empty_or_unknown(value: &str) -> (r: String)
    ensures
        r@ == known_or_unknown(value@),
{
    let t = value.trim();
    if t.is_empty() {
        "unknown".to_owned()
    } else {
        t.to_ascii_lowercase()
    }
}

/// How many nodes have a health.
pub open spec fn health_count(nodes: Seq<NodeModel>, health: NodeHealth) -> nat
    decreases nodes.len(),
{
    if nodes.len() == 0 {
        0
    } else {
        health_count(nodes.drop_last(), health) + if nodes.last().health == health {
            1nat
        } else {
            0nat
        }
    }
}

/// How many nodes a failure domain has.
pub open spec fn domain_count(nodes: Seq<NodeModel>, domain: Seq<char>) -> nat
    decreases nodes.len(),
{
    if nodes.len() == 0 {
        0
    } else {
        domain_count(nodes.drop_last(), domain) + if known_or_unknown(nodes.last().failure_domain)
            == domain {
            1nat
        } else {
            0nat
        }
    }
}

/// The failure domains of the healthy nodes.
pub open spec fn healthy_domains(nodes: Seq<NodeModel>) -> Set<Seq<char>>
    decreases nodes.len(),
{
    if nodes.len() == 0 {
        Set::empty()
    } else {
        let before = healthy_domains(nodes.drop_last());
        if nodes.last().health == NodeHealth::Healthy {
            before.insert(known_or_unknown(nodes.last().failure_domain))
        } else {
            before
        }
    }
}

/// The clouds of the healthy nodes, as far as they are known.
pub open spec fn healthy_clouds(nodes: Seq<NodeModel>) -> Set<Seq<char>>
    decreases nodes.len(),
{
    if nodes.len() == 0 {
        Set::empty()
    } else {
        let before = healthy_clouds(nodes.drop_last());
        let node = nodes.last();
        if node.health == NodeHealth::Healthy && text::trimmed(node.cloud_provider).len() > 0 {
            before.insert(membership::normal(node.cloud_provider))
        } else {
            before
        }
    }
}

/// The cluster of a node, or its failure domain where that is not known.
pub open spec fn cluster_of(node: NodeModel) -> Seq<char> {
    if text::trimmed(node.cluster_id).len() > 0 {
        membership::normal(node.cluster_id)
    } else {
        known_or_unknown(node.failure_domain)
    }
}

/// The clusters of the healthy nodes.
pub open spec fn healthy_clusters(nodes: Seq<NodeModel>) -> Set<Seq<char>>
    decreases nodes.len(),
{
    if nodes.len() == 0 {
        Set::empty()
    } else {
        let before = healthy_clusters(nodes.drop_last());
        if nodes.last().health == NodeHealth::Healthy {
            before.insert(cluster_of(nodes.last()))
        } else {
            before
        }
    }
}

/// The health last listed for a node.
pub open spec fn listed_health(nodes: Seq<NodeModel>, id: Seq<char>) -> Option<NodeHealth>
    decreases nodes.len(),
{
    if nodes.len() == 0 {
        None
    } else if nodes.last().node_id == id {
        Some(nodes.last().health)
    } else {
        listed_health(nodes.drop_last(), id)
    }
}

/// How many assignments a test holds of.
pub open spec fn count_assignments(
    list: Seq<AssignmentModel>,
    holds: spec_fn(AssignmentModel) -> bool,
) -> nat
    decreases list.len(),
{
    if list.len() == 0 {
        0
    } else {
        count_assignments(list.drop_last(), holds) + if holds(list.last()) {
            1nat
        } else {
            0nat
        }
    }
}

/// Whether an assignment has fewer replicas than it should.
pub open spec fn too_few_replicas(a: AssignmentModel) -> bool {
    a.replicas.len() < SUPPORTED_REPLICATION_FACTOR
}

/// Whether some replica of an assignment is not on a healthy node.
pub open spec fn has_unhealthy_replica(nodes: Seq<NodeModel>, a: AssignmentModel) -> bool {
    exists|i: int|
        0 <= i < a.replicas.len() && listed_health(nodes, #[trigger] a.replicas[i]) != Some(
            NodeHealth::Healthy,
        )
}

/// The shards that no assignment places.
pub open spec fn unplaced(list: Seq<AssignmentModel>, shard_count: u32) -> nat {
    if list.len() >= shard_count {
        0
    } else {
        (shard_count - list.len()) as nat
    }
}

/// The gap between what is wanted and what is observed.
pub struct StatusSummary {
    pub healthy: usize,
    pub suspect: usize,
    pub dead: usize,
    pub draining: usize,
    pub nodes_by_failure_domain: IdMap<u64>,
    pub healthy_failure_domains: usize,
    pub healthy_cloud_providers: usize,
    pub healthy_kubernetes_clusters: usize,
    pub scale_target_met: bool,
    pub placed_shards: usize,
    pub unplaced_shards: usize,
    pub under_replicated_shards: usize,
    pub leaderless_shards: usize,
    pub shards_with_unhealthy_replicas: usize,
    /// Whether the topology bears the replication factor and every shard is placed as it should
    /// be.
    pub ready: bool,
}

/// What a status summary says.
pub open spec fn summarizes(
    r: StatusSummary,
    nodes: Seq<NodeModel>,
    list: Seq<AssignmentModel>,
    plan: ScalePlan,
    shard_count: u32,
) -> bool {
    let rf = SUPPORTED_REPLICATION_FACTOR;
    let missing = unplaced(list, shard_count);
    &&& r.healthy == health_count(nodes, NodeHealth::Healthy)
    &&& r.suspect == health_count(nodes, NodeHealth::Suspect)
    &&& r.dead == health_count(nodes, NodeHealth::Dead)
    &&& r.draining == health_count(nodes, NodeHealth::Draining)
    &&& counts_domains(r.nodes_by_failure_domain@, nodes)
    &&& r.healthy_failure_domains == healthy_domains(nodes).len()
    &&& r.healthy_cloud_providers == healthy_clouds(nodes).len()
    &&& r.healthy_kubernetes_clusters == healthy_clusters(nodes).len()
    &&& r.scale_target_met == (r.healthy >= plan.target_nodes && r.healthy >= rf)
    &&& r.placed_shards == list.len()
    &&& r.unplaced_shards == missing
    &&& r.under_replicated_shards == count_assignments(
        list,
        |a: AssignmentModel| too_few_replicas(a),
    ) + missing
    &&& r.leaderless_shards == count_assignments(
        list,
        |a: AssignmentModel| a.preferred_leader is None,
    ) + missing
    &&& r.shards_with_unhealthy_replicas == count_assignments(
        list,
        |a: AssignmentModel| has_unhealthy_replica(nodes, a),
    )
    &&& r.ready == (r.healthy_failure_domains >= rf && r.under_replicated_shards == 0
        && r.leaderless_shards == 0 && r.shards_with_unhealthy_replicas == 0)
}

/// Whether `counts` says of every failure domain that has nodes how many it has.
pub open spec fn counts_domains(counts: Map<Seq<char>, u64>, nodes: Seq<NodeModel>) -> bool {
    forall|d: Seq<char>| #[trigger]
        domain_count(nodes, d) == if counts.dom().contains(d) {
            counts[d] as nat
        } else {
            0
        } && (counts.dom().contains(d) ==> counts[d] > 0)
}

fn cluster_name(node: &NodeInfo) -> (r: String)
    ensures
        r@ == cluster_of(node.deep_view()),
{
    let t = node.cluster_id.as_str().trim();
    if t.is_empty() {
        non_empty_or_unknown(node.failure_domain.as_str())
    } else {
        t.to_ascii_lowercase()
    }
}

fn health_listed(nodes: &Vec<NodeInfo>, id: &NodeId) -> (r: Option<NodeHealth>)
    ensures
        r == listed_health(nodes.deep_view(), id@),
{
    let ghost model = nodes.deep_view();
    let mut i: usize = nodes.len();
    assert(model.take(model.len() as int) =~= model);
    while i > 0
        invariant
            i <= nodes.len(),
            model == nodes.deep_view(),
            listed_health(model, id@) == listed_health(model.take(i as int), id@),
        decreases i,
    {
        i -= 1;
        assert(model.take(i + 1).drop_last() =~= model.take(i as int));
        if text_eq(nodes[i].node_id.as_str(), id.as_str()) {
            return Some(nodes[i].health);
        }
    }
    None
}

fn unhealthy_replica(nodes: &Vec<NodeInfo>, a: &ShardAssignment) -> (r: bool)
    ensures
        r == has_unhealthy_replica(nodes.deep_view(), a.deep_view()),
{
    let ghost replicas = a.replicas.deep_view();
    let mut i: usize = 0;
    while i < a.replicas.len()
        invariant
            i <= a.replicas.len(),
            replicas == a.replicas.deep_view(),
            forall|k: int|
                0 <= k < i ==> listed_health(nodes.deep_view(), #[trigger] replicas[k]) == Some(
                    NodeHealth::Healthy,
                ),
        decreases a.replicas.len() - i,
    {
        assert(replicas[i as int] == a.replicas@[i as int]@);
        match health_listed(nodes, &a.replicas[i]) {
            Some(NodeHealth::Healthy) => {},
            _ => {
                return true;
            },
        }
        i += 1;
    }
    false
}

struct NodeTally {
    healthy: usize,
    suspect: usize,
    dead: usize,
    draining: usize,
    by_domain: IdMap<u64>,
    domains: IdSet,
    clouds: IdSet,
    clusters: IdSet,
}

spec fn tallies(t: NodeTally, nodes: Seq<NodeModel>) -> bool {
    &&& t.healthy == health_count(nodes, NodeHealth::Healthy)
    &&& t.suspect == health_count(nodes, NodeHealth::Suspect)
    &&& t.dead == health_count(nodes, NodeHealth::Dead)
    &&& t.draining == health_count(nodes, NodeHealth::Draining)
    &&& counts_domains(t.by_domain@, nodes)
    &&& t.domains@ == healthy_domains(nodes)
    &&& t.clouds@ == healthy_clouds(nodes)
    &&& t.clusters@ == healthy_clusters(nodes)
}

proof fn counts_are_bounded(nodes: Seq<NodeModel>, health: NodeHealth, domain: Seq<char>)
    ensures
        health_count(nodes, health) <= nodes.len(),
        domain_count(nodes, domain) <= nodes.len(),
    decreases nodes.len(),
{
    if nodes.len() > 0 {
        counts_are_bounded(nodes.drop_last(), health, domain);
    }
}

fn tally_node(t: &mut NodeTally, node: &NodeInfo, Ghost(before): Ghost<Seq<NodeModel>>)
    requires
        tallies(*old(t), before),
        before.len() < usize::MAX,
    ensures
        tallies(*final(t), before.push(node.deep_view())),
{
    let ghost after = before.push(node.deep_view());
    proof {
        assert(after.drop_last() =~= before);
        assert(after.last() == node.deep_view());
        counts_are_bounded(before, NodeHealth::Healthy, Seq::empty());
        counts_are_bounded(before, NodeHealth::Suspect, Seq::empty());
        counts_are_bounded(before, NodeHealth::Dead, Seq::empty());
        counts_are_bounded(before, NodeHealth::Draining, Seq::empty());
    }
    match node.health {
        NodeHealth::Healthy => {
            t.healthy += 1;
            t.domains.insert(non_empty_or_unknown(node.failure_domain.as_str()));
            let cloud = node.cloud_provider.as_str().trim();
            if !cloud.is_empty() {
                t.clouds.insert(cloud.to_ascii_lowercase());
            }
            t.clusters.insert(cluster_name(node));
        },
        NodeHealth::Suspect => {
            t.suspect += 1;
        },
        NodeHealth::Dead => {
            t.dead += 1;
        },
        NodeHealth::Draining => {
            t.draining += 1;
        },
    }
    let domain = non_empty_or_unknown(node.failure_domain.as_str());
    let ghost d = domain@;
    let ghost was = t.by_domain@;
    assert(domain_count(before, d) == if was.dom().contains(d) {
        was[d] as nat
    } else {
        0
    });
    proof {
        counts_are_bounded(before, NodeHealth::Healthy, d);
    }
    let n: u64 = match t.by_domain.get(domain.as_str()) {
        Some(n) => *n,
        None => 0,
    };
    t.by_domain.insert(domain, n + 1);
    assert forall|k: Seq<char>| #[trigger]
        domain_count(after, k) == if t.by_domain@.dom().contains(k) {
            t.by_domain@[k] as nat
        } else {
            0
        } && (t.by_domain@.dom().contains(k) ==> t.by_domain@[k] > 0) by {
        assert(domain_count(before, k) == if was.dom().contains(k) {
            was[k] as nat
        } else {
            0
        });
    }
}

fn tally_nodes(nodes: &Vec<NodeInfo>) -> (t: NodeTally)
    ensures
        tallies(t, nodes.deep_view()),
{
    let ghost model = nodes.deep_view();
    let mut t = NodeTally {
        healthy: 0,
        suspect: 0,
        dead: 0,
        draining: 0,
        by_domain: IdMap::new(),
        domains: IdSet::new(),
        clouds: IdSet::new(),
        clusters: IdSet::new(),
    };
    let mut i: usize = 0;
    while i < nodes.len()
        invariant
            i <= nodes.len(),
            model == nodes.deep_view(),
            tallies(t, model.take(i as int)),
        decreases nodes.len() - i,
    {
        tally_node(&mut t, &nodes[i], Ghost(model.take(i as int)));
        assert(model.take(i + 1) =~= model.take(i as int).push(model[i as int]));
        i += 1;
    }
    assert(model.take(model.len() as int) =~= model);
    t
}

/// What the status says of the nodes and the shards.
pub fn status_summary(
    nodes: &Vec<NodeInfo>,
    assignments: &Vec<ShardAssignment>,
    plan: &ScalePlan,
    shard_count: u32,
) -> (r: StatusSummary)
    ensures
        summarizes(r, nodes.deep_view(), assignments.deep_view(), *plan, shard_count),
        status_laws::counts_nodes(r, nodes.deep_view()),
        status_laws::ids_differ(nodes.deep_view()) ==> status_laws::counts_shards(
            r,
            nodes.deep_view(),
            assignments.deep_view(),
            shard_count,
        ),
        r.ready ==> status_laws::is_ready(
            nodes.deep_view(),
            assignments.deep_view(),
            shard_count,
        ),
        status_laws::ids_differ(nodes.deep_view()) && status_laws::is_ready(
            nodes.deep_view(),
            assignments.deep_view(),
            shard_count,
        ) ==> r.ready,
{
    let t = tally_nodes(nodes);
    let ghost model = nodes.deep_view();
    let ghost list = assignments.deep_view();
    let ghost few = |a: AssignmentModel| too_few_replicas(a);
    let ghost leaderless = |a: AssignmentModel| a.preferred_leader is None;
    let ghost ailing = |a: AssignmentModel| has_unhealthy_replica(model, a);
    let mut under: usize = 0;
    let mut orphans: usize = 0;
    let mut unhealthy: usize = 0;
    let mut i: usize = 0;
    while i < assignments.len()
        invariant
            i <= assignments.len(),
            model == nodes.deep_view(),
            list == assignments.deep_view(),
            few == |a: AssignmentModel| too_few_replicas(a),
            leaderless == |a: AssignmentModel| a.preferred_leader is None,
            ailing == |a: AssignmentModel| has_unhealthy_replica(model, a),
            under == count_assignments(list.take(i as int), few),
            orphans == count_assignments(list.take(i as int), leaderless),
            unhealthy == count_assignments(list.take(i as int), ailing),
            under <= i,
            orphans <= i,
            unhealthy <= i,
        decreases assignments.len() - i,
    {
        assert(list.take(i + 1).drop_last() =~= list.take(i as int));
        let a = &assignments[i];
        assert(list.take(i + 1).last() == a.deep_view());
        if a.replicas.len() < SUPPORTED_REPLICATION_FACTOR as usize {
            under += 1;
        }
        if a.preferred_leader.is_none() {
            orphans += 1;
        }
        if unhealthy_replica(nodes, a) {
            unhealthy += 1;
        }
        i += 1;
    }
    assert(list.take(list.len() as int) =~= list);
    let placed: usize = assignments.len();
    let missing: usize = if placed >= shard_count as usize {
        0
    } else {
        shard_count as usize - placed
    };
    let rf: usize = SUPPORTED_REPLICATION_FACTOR as usize;
    let domains: usize = t.domains.len();
    let r = StatusSummary {
        healthy: t.healthy,
        suspect: t.suspect,
        dead: t.dead,
        draining: t.draining,
        healthy_failure_domains: domains,
        healthy_cloud_providers: t.clouds.len(),
        healthy_kubernetes_clusters: t.clusters.len(),
        nodes_by_failure_domain: t.by_domain,
        scale_target_met: t.healthy >= plan.target_nodes as usize && t.healthy >= rf,
        placed_shards: placed,
        unplaced_shards: missing,
        under_replicated_shards: under + missing,
        leaderless_shards: orphans + missing,
        shards_with_unhealthy_replicas: unhealthy,
        ready: domains >= rf && under + missing == 0 && orphans + missing == 0 && unhealthy == 0,
    };
    proof {
        status_laws::status_counts_nodes(r, model, list, *plan, shard_count);
        status_laws::ready_is_ready(r, model, list, *plan, shard_count);
        if status_laws::ids_differ(model) {
            status_laws::status_counts_shards(r, model, list, *plan, shard_count);
        }
    }
    r
}

proof fn none_counted(
    list: Seq<AssignmentModel>,
    holds: spec_fn(AssignmentModel) -> bool,
    i: int,
)
    requires
        count_assignments(list, holds) == 0,
        0 <= i < list.len(),
    ensures
        !holds(list[i]),
    decreases list.len(),
{
    if i < list.len() - 1 {
        none_counted(list.drop_last(), holds, i);
        assert(list.drop_last()[i] == list[i]);
    }
}

/// A cluster is reported ready only where every shard is placed, has a leader and enough replicas,
/// and every replica is on a healthy node.
pub proof fn ready_means_placed(
    r: StatusSummary,
    nodes: Seq<NodeModel>,
    list: Seq<AssignmentModel>,
    plan: ScalePlan,
    shard_count: u32,
    i: int,
)
    requires
        summarizes(r, nodes, list, plan, shard_count),
        r.ready,
        0 <= i < list.len(),
    ensures
        list.len() >= shard_count,
        list[i].replicas.len() >= SUPPORTED_REPLICATION_FACTOR,
        list[i].preferred_leader is Some,
        !has_unhealthy_replica(nodes, list[i]),
        healthy_domains(nodes).len() >= SUPPORTED_REPLICATION_FACTOR,
{
    none_counted(list, |a: AssignmentModel| too_few_replicas(a), i);
    none_counted(list, |a: AssignmentModel| a.preferred_leader is None, i);
    none_counted(list, |a: AssignmentModel| has_unhealthy_replica(nodes, a), i);
}

/// Whether the control plane itself has enough members to outlive one.
pub fn ha_configured(remote_peers: usize) -> (r: bool)
    ensures
        r == (remote_peers + 1 >= SUPPORTED_REPLICATION_FACTOR),
{
    remote_peers >= SUPPORTED_REPLICATION_FACTOR as usize - 1
}

} // verus!
