//! Cluster membership and failure detection.
//!
//! A node is `Healthy` while it heartbeats. After `suspect_after_ms` of silence it is `Suspect`:
//! placement avoids it but moves no data yet. After `dead_after_ms` it is `Dead` and its replicas
//! are re-placed. A liveness oracle can speed a death up, or hold it back.

use crate::decimal;
use crate::decimal::{append_text, positive_or};
use crate::ids::IdMap;
use crate::model::{HeartbeatReport, NodeHealth, NodeId, NodeInfo, NodeModel, ReportModel};
use crate::oracle::{LivenessOracle, NullOracle, PodLiveness};
use crate::text;
use vstd::prelude::*;

verus! {

/// Failure-detector timing.
#[derive(Debug, Clone, Copy, PartialEq, Eq, Structural)]
pub struct MembershipConfig {
    /// Silence before a node is demoted from healthy to suspect.
    pub suspect_after_ms: u64,
    /// Silence before a node is declared dead (and re-replicated).
    pub dead_after_ms: u64,
}

impl Default for MembershipConfig {
    fn default() -> (r: Self)
        ensures
            r == config_of(None, None),
    {
        MembershipConfig { suspect_after_ms: 6_000, dead_after_ms: 30_000 }
    }
}

/// The timing that two settings stand for; a node is never dead before it is suspect.
pub open spec fn config_of(
    suspect: Option<Seq<char>>,
    dead: Option<Seq<char>>,
) -> MembershipConfig {
    let suspect_after_ms = decimal::positive_of(suspect, 6_000);
    MembershipConfig {
        suspect_after_ms,
        dead_after_ms: dead_after(suspect_after_ms, decimal::positive_of(dead, 30_000)),
    }
}

/// The silence that means death: the configured one, but longer than the one that means suspicion
/// where the integers have room.
pub open spec fn dead_after(suspect_after_ms: u64, configured: u64) -> u64 {
    let least = if suspect_after_ms < u64::MAX {
        (suspect_after_ms + 1) as u64
    } else {
        u64::MAX
    };
    if configured >= least {
        configured
    } else {
        least
    }
}

/// The silence after which a node is dead.
pub fn dead_after_ms_after(suspect_after_ms: u64, configured_dead_after_ms: u64) -> (r: u64)
    ensures
        r == dead_after(suspect_after_ms, configured_dead_after_ms),
{
    let least: u64 = suspect_after_ms.saturating_add(1);
    if configured_dead_after_ms >= least {
        configured_dead_after_ms
    } else {
        least
    }
}

impl MembershipConfig {
    /// The timing that two settings stand for; a missing, unreadable or zero setting means the
    /// default.
    pub fn from_settings(suspect: Option<&String>, dead: Option<&String>) -> (r: Self)
        ensures
            r == config_of(suspect.deep_view(), dead.deep_view()),
    {
        let suspect_after_ms: u64 = positive_or(suspect, 6_000);
        let configured: u64 = positive_or(dead, 30_000);
        MembershipConfig {
            suspect_after_ms,
            dead_after_ms: dead_after_ms_after(suspect_after_ms, configured),
        }
    }
}

/// A text in the form domains are compared in: trimmed, in lower case.
pub open spec fn normal(s: Seq<char>) -> Seq<char> {
    text::lowered(text::trimmed(s))
}

/// Two parts with a slash between them; an empty part counts for nothing.
pub open spec fn slashed(a: Seq<char>, b: Seq<char>) -> Seq<char> {
    if a.len() == 0 {
        b
    } else if b.len() == 0 {
        a
    } else {
        a.push('/') + b
    }
}

/// The failure domain that provider, region and cluster make up, or the fallback.
pub open spec fn domain_of_parts(
    cloud_provider: Seq<char>,
    region: Seq<char>,
    cluster_id: Seq<char>,
    fallback: Seq<char>,
) -> Seq<char> {
    let joined = slashed(slashed(normal(cloud_provider), normal(region)), normal(cluster_id));
    if joined.len() == 0 {
        fallback
    } else {
        joined
    }
}

/// The failure domain a report claims, or the one its parts make up.
pub open spec fn domain_of_report(report: ReportModel) -> Seq<char> {
    if text::trimmed(report.failure_domain).len() > 0 {
        normal(report.failure_domain)
    } else {
        domain_of_parts(report.cloud_provider, report.region, report.cluster_id, Seq::empty())
    }
}

/// What a report says, or what is known where it says nothing.
pub open spec fn told_or(told: Seq<char>, known: Seq<char>) -> Seq<char> {
    if told.len() > 0 {
        told
    } else {
        known
    }
}

/// Whether a report is a reordered or repeated delivery: it is sequenced, and not newer than what
/// was accepted.
pub open spec fn outdated(node: Option<NodeModel>, report: ReportModel) -> bool {
    node is Some && report.seq != 0 && report.seq <= node->0.last_seq
}

/// What is known of a node after an accepted report.
pub open spec fn reported(
    node: Option<NodeModel>,
    node_id: Seq<char>,
    now_ms: u64,
    report: ReportModel,
) -> NodeModel {
    let known = match node {
        Some(n) => n,
        None => NodeModel {
            node_id,
            address: report.address,
            health: NodeHealth::Healthy,
            cloud_provider: report.cloud_provider,
            region: report.region,
            cluster_id: report.cluster_id,
            failure_domain: domain_of_report(report),
            last_seen_ms: now_ms,
            hosted_shards: Seq::empty(),
            leading_shards: Seq::empty(),
            last_seq: 0,
        },
    };
    let cloud_provider = told_or(report.cloud_provider, known.cloud_provider);
    let region = told_or(report.region, known.region);
    let cluster_id = told_or(report.cluster_id, known.cluster_id);
    NodeModel {
        node_id: known.node_id,
        address: told_or(report.address, known.address),
        health: if known.health == NodeHealth::Draining {
            NodeHealth::Draining
        } else {
            NodeHealth::Healthy
        },
        cloud_provider,
        region,
        cluster_id,
        failure_domain: if report.failure_domain.len() > 0 {
            domain_of_report(report)
        } else if known.failure_domain.len() == 0 {
            domain_of_parts(cloud_provider, region, cluster_id, node_id)
        } else {
            known.failure_domain
        },
        last_seen_ms: now_ms,
        hosted_shards: report.hosted_shards,
        leading_shards: report.leading_shards,
        last_seq: if report.seq > known.last_seq {
            report.seq
        } else {
            known.last_seq
        },
    }
}

/// The health that silence and the oracle together give a node that is not draining.
pub open spec fn judged(
    config: MembershipConfig,
    last_seen_ms: u64,
    now_ms: u64,
    verdict: PodLiveness,
) -> NodeHealth {
    let silent_for = if now_ms >= last_seen_ms {
        now_ms - last_seen_ms
    } else {
        0
    };
    let by_timeout = if silent_for >= config.dead_after_ms {
        NodeHealth::Dead
    } else if silent_for >= config.suspect_after_ms {
        NodeHealth::Suspect
    } else {
        NodeHealth::Healthy
    };
    match verdict {
        PodLiveness::Gone => NodeHealth::Dead,
        PodLiveness::Running => if by_timeout == NodeHealth::Dead {
            NodeHealth::Suspect
        } else {
            by_timeout
        },
        PodLiveness::Unknown => by_timeout,
    }
}

/// What is known of a node after a sweep. A draining node is left as it is.
pub open spec fn swept(
    config: MembershipConfig,
    node: NodeModel,
    now_ms: u64,
    verdict: PodLiveness,
) -> NodeModel {
    if node.health == NodeHealth::Draining {
        node
    } else {
        NodeModel { health: judged(config, node.last_seen_ms, now_ms, verdict), ..node }
    }
}

/// Whether `list` is the listing of `nodes`: every node once, in ascending order of id.
pub open spec fn lists(nodes: Map<Seq<char>, NodeModel>, list: Seq<NodeModel>) -> bool {
    &&& forall|i: int|
        0 <= i < list.len() ==> nodes.dom().contains((#[trigger] list[i]).node_id)
            && nodes[list[i].node_id] == list[i]
    &&& forall|k: Seq<char>| #[trigger]
        nodes.dom().contains(k) ==> exists|i: int|
            0 <= i < list.len() && (#[trigger] list[i]).node_id == k
    &&& forall|i: int, j: int|
        0 <= i < j < list.len() ==> text::text_lt(
            (#[trigger] list[i]).node_id,
            (#[trigger] list[j]).node_id,
        )
}

/// The listing of a registry.
pub open spec fn listing(nodes: Map<Seq<char>, NodeModel>) -> Seq<NodeModel> {
    choose|list: Seq<NodeModel>| lists(nodes, list)
}

/// Registry of known data-plane nodes and their health.
pub struct Membership {
    nodes: IdMap<NodeInfo>,
    config: MembershipConfig,
}

fn normal_text(s: &str) -> (r: String)
    ensures
        r@ == normal(s@),
{
    s.trim().to_ascii_lowercase()
}

fn slash_join(a: String, b: String) -> (r: String)
    ensures
        r@ == slashed(a@, b@),
{
    if a.as_str().is_empty() {
        b
    } else if b.as_str().is_empty() {
        a
    } else {
        let mut r = a;
        r.push('/');
        append_text(&mut r, b.as_str());
        r
    }
}

fn normalized_failure_domain_from_parts(
    cloud_provider: &str,
    region: &str,
    cluster_id: &str,
    fallback: &str,
) -> (r: String)
    ensures
        r@ == domain_of_parts(cloud_provider@, region@, cluster_id@, fallback@),
{
    let joined = slash_join(
        slash_join(normal_text(cloud_provider), normal_text(region)),
        normal_text(cluster_id),
    );
    if joined.as_str().is_empty() {
        fallback.to_owned()
    } else {
        joined
    }
}

fn normalized_failure_domain(report: &HeartbeatReport) -> (r: String)
    ensures
        r@ == domain_of_report(report.deep_view()),
{
    if !report.failure_domain.as_str().trim().is_empty() {
        return normal_text(report.failure_domain.as_str());
    }
    let r = normalized_failure_domain_from_parts(
        report.cloud_provider.as_str(),
        report.region.as_str(),
        report.cluster_id.as_str(),
        "",
    );
    proof {
        reveal_strlit("");
        assert(""@ =~= Seq::<char>::empty());
    }
    r
}

fn told_or_known(told: String, known: String) -> (r: String)
    ensures
        r@ == told_or(told@, known@),
{
    if told.as_str().is_empty() {
        known
    } else {
        told
    }
}

impl Membership {
    /// What is known of each node.
    pub closed spec fn nodes(&self) -> Map<Seq<char>, NodeModel> {
        self.nodes.deep_view()
    }

    /// The timing.
    pub closed spec fn config(&self) -> MembershipConfig {
        self.config
    }

    /// Every node is registered under its own id.
    #[verifier::type_invariant]
    spec fn keyed_by_id(self) -> bool {
        keyed(self.nodes@)
    }

    /// An empty registry.
    pub fn new(config: MembershipConfig) -> (r: Self)
        ensures
            r.nodes() == Map::<Seq<char>, NodeModel>::empty(),
            r.config() == config,
    {
        let r = Membership { nodes: IdMap::new(), config };
        assert(r.nodes() =~= Map::<Seq<char>, NodeModel>::empty());
        r
    }

    /// Records a heartbeat: refreshes `last_seen_ms`, marks the node healthy, and stores what it
    /// reports, registering it if new. A draining node stays draining, and a report that is not
    /// newer than the last accepted one is ignored. Returns the node's health.
    pub fn heartbeat(&mut self, node_id: &NodeId, now_ms: u64, report: HeartbeatReport) -> (r:
        NodeHealth)
        ensures
            final(self).config() == old(self).config(),
            ({
                let node = if old(self).nodes().dom().contains(node_id@) {
                    Some(old(self).nodes()[node_id@])
                } else {
                    None
                };
                &&& final(self).nodes() == if outdated(node, report.deep_view()) {
                    old(self).nodes()
                } else {
                    old(self).nodes().insert(
                        node_id@,
                        reported(node, node_id@, now_ms, report.deep_view()),
                    )
                }
                &&& r == final(self).nodes()[node_id@].health
            }),
    {
        proof {
            use_type_invariant(&*self);
        }
        let ghost before = self.nodes@;
        let ghost model = report.deep_view();
        if let Some(known) = self.nodes.get(node_id.as_str()) {
            if report.seq != 0 && report.seq <= known.last_seq {
                return known.health;
            }
        }
        let normalized_domain = normalized_failure_domain(&report);
        let mut nodes: IdMap<NodeInfo> = IdMap::new();
        std::mem::swap(&mut nodes, &mut self.nodes);
        let taken = nodes.remove(node_id.as_str());
        let ghost node = taken.deep_view();
        let known: NodeInfo = match taken {
            Some(info) => info,
            None => {
                let fresh = NodeInfo {
                    node_id: node_id.clone(),
                    address: report.address.clone(),
                    health: NodeHealth::Healthy,
                    cloud_provider: report.cloud_provider.clone(),
                    region: report.region.clone(),
                    cluster_id: report.cluster_id.clone(),
                    failure_domain: normalized_domain.clone(),
                    last_seen_ms: now_ms,
                    hosted_shards: Vec::new(),
                    leading_shards: Vec::new(),
                    last_seq: 0,
                };
                assert(fresh.hosted_shards@ =~= Seq::empty());
                fresh
            },
        };
        let domain_told: bool = !report.failure_domain.as_str().is_empty();
        let cloud_provider = told_or_known(report.cloud_provider, known.cloud_provider);
        let region = told_or_known(report.region, known.region);
        let cluster_id = told_or_known(report.cluster_id, known.cluster_id);
        let failure_domain = if domain_told {
            normalized_domain
        } else if known.failure_domain.as_str().is_empty() {
            normalized_failure_domain_from_parts(
                cloud_provider.as_str(),
                region.as_str(),
                cluster_id.as_str(),
                node_id.as_str(),
            )
        } else {
            known.failure_domain
        };
        let health = if known.health == NodeHealth::Draining {
            NodeHealth::Draining
        } else {
            NodeHealth::Healthy
        };
        let info = NodeInfo {
            node_id: known.node_id,
            address: told_or_known(report.address, known.address),
            health,
            cloud_provider,
            region,
            cluster_id,
            failure_domain,
            last_seen_ms: now_ms,
            hosted_shards: report.hosted_shards,
            leading_shards: report.leading_shards,
            last_seq: if report.seq > known.last_seq {
                report.seq
            } else {
                known.last_seq
            },
        };
        assert(info.deep_view() =~= reported(node, node_id@, now_ms, model));
        let ghost info_model = info.deep_view();
        nodes.insert(node_id.clone(), info);
        assert(nodes@ =~= before.insert(node_id@, info));
        assert(nodes.deep_view() =~= old(self).nodes().insert(node_id@, info_model));
        self.nodes = nodes;
        health
    }

    /// Begins draining a node ahead of removal. Returns whether the node was known.
    pub fn drain(&mut self, node_id: &NodeId) -> (r: bool)
        ensures
            final(self).config() == old(self).config(),
            r == old(self).nodes().dom().contains(node_id@),
            final(self).nodes() == if r {
                old(self).nodes().insert(
                    node_id@,
                    NodeModel {
                        health: NodeHealth::Draining,
                        ..old(self).nodes()[node_id@]
                    },
                )
            } else {
                old(self).nodes()
            },
    {
        proof {
            use_type_invariant(&*self);
        }
        if !self.nodes.contains(node_id.as_str()) {
            return false;
        }
        let ghost before = self.nodes@;
        let mut nodes: IdMap<NodeInfo> = IdMap::new();
        std::mem::swap(&mut nodes, &mut self.nodes);
        if let Some(taken) = nodes.remove(node_id.as_str()) {
            let mut info = taken;
            let ghost was = info.deep_view();
            info.health = NodeHealth::Draining;
            assert(info.deep_view() =~= NodeModel { health: NodeHealth::Draining, ..was });
            let ghost now = info.deep_view();
            nodes.insert(node_id.clone(), info);
            assert(nodes@ =~= before.insert(node_id@, info));
            assert(nodes.deep_view() =~= old(self).nodes().insert(node_id@, now));
        }
        self.nodes = nodes;
        true
    }

    /// Drops a node from the registry. Returns whether it was present.
    pub fn forget(&mut self, node_id: &NodeId) -> (r: bool)
        ensures
            final(self).config() == old(self).config(),
            r == old(self).nodes().dom().contains(node_id@),
            final(self).nodes() == old(self).nodes().remove(node_id@),
    {
        proof {
            use_type_invariant(&*self);
        }
        let mut nodes: IdMap<NodeInfo> = IdMap::new();
        std::mem::swap(&mut nodes, &mut self.nodes);
        let r: bool = nodes.remove(node_id.as_str()).is_some();
        assert(nodes.deep_view() =~= old(self).nodes().remove(node_id@));
        self.nodes = nodes;
        r
    }

    /// All known nodes, in ascending order of id.
    pub fn snapshot(&self) -> (r: Vec<NodeInfo>)
        ensures
            lists(self.nodes(), r.deep_view()),
            r.deep_view() == listing(self.nodes()),
    {
        proof {
            use_type_invariant(self);
        }
        let n: usize = self.nodes.len();
        let ghost keys = self.nodes.keys();
        let mut r: Vec<NodeInfo> = Vec::new();
        let mut i: usize = 0;
        while i < n
            invariant
                i <= n,
                n == keys.len(),
                keys == self.nodes.keys(),
                keyed(self.nodes@),
                forall|k: Seq<char>| self.nodes@.dom().contains(k) ==> keys.contains(k),
                forall|a: int, b: int|
                    0 <= a < b < keys.len() ==> text::text_lt(
                        #[trigger] keys[a],
                        #[trigger] keys[b],
                    ),
                r.len() == i,
                forall|k: int|
                    0 <= k < keys.len() ==> self.nodes@.dom().contains(#[trigger] keys[k]),
                forall|k: int|
                    0 <= k < i ==> (#[trigger] r@[k]).deep_view() == self.nodes@[keys[k]].deep_view(),
            decreases n - i,
        {
            r.push(self.nodes.value_at(i).clone());
            i += 1;
        }
        proof {
            let list = r.deep_view();
            assert forall|k: int| 0 <= k < list.len() implies (#[trigger] list[k]).node_id == keys[k]
                && self.nodes().dom().contains(keys[k]) && self.nodes()[keys[k]] == list[k] by {
                assert(self.nodes@.dom().contains(keys[k]));
                assert(list[k] == r@[k].deep_view());
            }
            assert forall|id: Seq<char>| #[trigger]
                self.nodes().dom().contains(id) implies exists|k: int|
                0 <= k < list.len() && (#[trigger] list[k]).node_id == id by {
                assert(self.nodes@.dom().contains(id));
                assert(keys.contains(id));
                let k = keys.index_of(id);
                assert(list[k].node_id == id);
            }
            assert(lists(self.nodes(), list));
            crate::membership_laws::listing_is_unique(self.nodes(), list, listing(self.nodes()));
        }
        r
    }

    /// Failure sweep by timeouts alone.
    pub fn sweep(&mut self, now_ms: u64) -> (r: Vec<NodeId>)
        ensures
            final(self).config() == old(self).config(),
            final(self).nodes() == old(self).nodes().map_values(
                |n: NodeModel| swept(old(self).config(), n, now_ms, PodLiveness::Unknown),
            ),
            lists_newly_dead(old(self).nodes(), final(self).nodes(), r.deep_view()),
    {
        let r = self.sweep_with_oracle(now_ms, &NullOracle);
        assert(self.nodes() =~= old(self).nodes().map_values(
            |n: NodeModel| swept(old(self).config(), n, now_ms, PodLiveness::Unknown),
        ));
        r
    }

    /// Failure sweep: judges every node that is not draining by its silence and by the oracle, and
    /// returns the nodes newly declared dead.
    pub fn sweep_with_oracle<O: LivenessOracle>(&mut self, now_ms: u64, oracle: &O) -> (r: Vec<
        NodeId,
    >)
        ensures
            final(self).config() == old(self).config(),
            final(self).nodes() == Map::new(
                |k: Seq<char>| old(self).nodes().dom().contains(k),
                |k: Seq<char>|
                    swept(
                        old(self).config(),
                        old(self).nodes()[k],
                        now_ms,
                        oracle.verdict(k),
                    ),
            ),
            lists_newly_dead(old(self).nodes(), final(self).nodes(), r.deep_view()),
    {
        proof {
            use_type_invariant(&*self);
        }
        let config: MembershipConfig = self.config;
        let ghost before = self.nodes();
        let ghost after = Map::new(
            |k: Seq<char>| before.dom().contains(k),
            |k: Seq<char>| swept(config, before[k], now_ms, oracle.verdict(k)),
        );
        let n: usize = self.nodes.len();
        let ghost keys = self.nodes.keys();
        let mut nodes: IdMap<NodeInfo> = IdMap::new();
        let mut newly_dead: Vec<NodeId> = Vec::new();
        let mut i: usize = 0;
        assert(newly_dead.deep_view() =~= dead_among(before, after, keys.take(0)));
        while i < n
            invariant
                i <= n,
                n == keys.len(),
                keys == self.nodes.keys(),
                config == self.config,
                before == self.nodes(),
                self.nodes() == old(self).nodes(),
                self.config() == old(self).config(),
                after == Map::new(
                    |k: Seq<char>| before.dom().contains(k),
                    |k: Seq<char>| swept(config, before[k], now_ms, oracle.verdict(k)),
                ),
                keyed(self.nodes@),
                keyed(nodes@),
                forall|k: int|
                    0 <= k < keys.len() ==> self.nodes@.dom().contains(#[trigger] keys[k]),
                forall|a: int, b: int|
                    0 <= a < b < keys.len() ==> text::text_lt(
                        #[trigger] keys[a],
                        #[trigger] keys[b],
                    ),
                forall|k: Seq<char>| self.nodes@.dom().contains(k) ==> keys.contains(k),
                forall|k: Seq<char>| #[trigger]
                    nodes@.dom().contains(k) <==> keys.take(i as int).contains(k),
                forall|k: Seq<char>| #[trigger]
                    nodes@.dom().contains(k) ==> nodes@[k].deep_view() == after[k],
                newly_dead.deep_view() == dead_among(before, after, keys.take(i as int)),
            decreases n - i,
        {
            let mut info = self.nodes.value_at(i).clone();
            let ghost id = keys[i as int];
            assert(self.nodes@.dom().contains(id));
            assert(info.deep_view() == before[id]);
            assert(info.node_id@ == id);
            if info.health != NodeHealth::Draining {
                let silent_for: u64 = now_ms.saturating_sub(info.last_seen_ms);
                let by_timeout = if silent_for >= config.dead_after_ms {
                    NodeHealth::Dead
                } else if silent_for >= config.suspect_after_ms {
                    NodeHealth::Suspect
                } else {
                    NodeHealth::Healthy
                };
                let new_health = match oracle.liveness(info.node_id.as_str()) {
                    PodLiveness::Gone => NodeHealth::Dead,
                    PodLiveness::Running => if by_timeout == NodeHealth::Dead {
                        NodeHealth::Suspect
                    } else {
                        by_timeout
                    },
                    PodLiveness::Unknown => by_timeout,
                };
                assert(new_health == judged(
                    config,
                    info.last_seen_ms,
                    now_ms,
                    oracle.verdict(id),
                ));
                if new_health == NodeHealth::Dead && info.health != NodeHealth::Dead {
                    let ghost was = newly_dead.deep_view();
                    newly_dead.push(info.node_id.clone());
                    assert(newly_dead.deep_view() =~= was.push(id));
                }
                info.health = new_health;
            }
            assert(info.deep_view() =~= after[id]);
            let ghost was = nodes@;
            let key = info.node_id.clone();
            nodes.insert(key, info);
            i += 1;
            proof {
                let now = keys.take(i as int);
                assert(now.drop_last() =~= keys.take(i - 1));
                assert(now.last() == id);
                assert forall|k: Seq<char>| #[trigger] nodes@.dom().contains(k) <==> now.contains(
                    k,
                ) by {
                    if keys.take(i - 1).contains(k) {
                        let x = keys.take(i - 1).index_of(k);
                        assert(now[x] == k);
                    }
                    if k == id {
                        assert(now[i - 1] == k);
                    }
                    if now.contains(k) && k != id {
                        let x = now.index_of(k);
                        assert(keys.take(i - 1)[x] == k);
                    }
                }
            }
        }
        proof {
            assert(keys.take(keys.len() as int) =~= keys);
            assert forall|k: Seq<char>| #[trigger] nodes.deep_view().dom().contains(k)
                <==> after.dom().contains(k) by {
                if before.dom().contains(k) {
                    assert(self.nodes@.dom().contains(k));
                    assert(keys.contains(k));
                    assert(nodes@.dom().contains(k));
                }
                if nodes@.dom().contains(k) {
                    let x = keys.index_of(k);
                    assert(self.nodes@.dom().contains(keys[x]));
                }
            }
            assert(nodes.deep_view() =~= after);
            dead_among_lists(before, after, keys);
        }
        self.nodes = nodes;
        newly_dead
    }
}

/// Whether every node is registered under its own id.
spec fn keyed(nodes: Map<Seq<char>, NodeInfo>) -> bool {
    forall|k: Seq<char>| #[trigger] nodes.dom().contains(k) ==> nodes[k].node_id@ == k
}

/// Whether a node is dead after a sweep and was not before.
pub open spec fn newly_dead(
    before: Map<Seq<char>, NodeModel>,
    after: Map<Seq<char>, NodeModel>,
    id: Seq<char>,
) -> bool {
    &&& before.dom().contains(id)
    &&& before[id].health != NodeHealth::Dead
    &&& after[id].health == NodeHealth::Dead
}

/// Whether `ids` are the nodes newly dead, each once, in ascending order.
pub open spec fn lists_newly_dead(
    before: Map<Seq<char>, NodeModel>,
    after: Map<Seq<char>, NodeModel>,
    ids: Seq<Seq<char>>,
) -> bool {
    &&& forall|k: Seq<char>| #[trigger] ids.contains(k) <==> newly_dead(before, after, k)
    &&& forall|i: int, j: int|
        0 <= i < j < ids.len() ==> text::text_lt(#[trigger] ids[i], #[trigger] ids[j])
}

spec fn dead_among(
    before: Map<Seq<char>, NodeModel>,
    after: Map<Seq<char>, NodeModel>,
    keys: Seq<Seq<char>>,
) -> Seq<Seq<char>>
    decreases keys.len(),
{
    if keys.len() == 0 {
        Seq::empty()
    } else {
        let rest = dead_among(before, after, keys.drop_last());
        if newly_dead(before, after, keys.last()) {
            rest.push(keys.last())
        } else {
            rest
        }
    }
}

proof fn dead_among_members(
    before: Map<Seq<char>, NodeModel>,
    after: Map<Seq<char>, NodeModel>,
    keys: Seq<Seq<char>>,
)
    requires
        forall|a: int, b: int|
            0 <= a < b < keys.len() ==> text::text_lt(#[trigger] keys[a], #[trigger] keys[b]),
    ensures
        forall|k: Seq<char>| #[trigger]
            dead_among(before, after, keys).contains(k) <==> keys.contains(k) && newly_dead(
                before,
                after,
                k,
            ),
        forall|i: int, j: int|
            0 <= i < j < dead_among(before, after, keys).len() ==> text::text_lt(
                #[trigger] dead_among(before, after, keys)[i],
                #[trigger] dead_among(before, after, keys)[j],
            ),
    decreases keys.len(),
{
    if keys.len() > 0 {
        let rest = keys.drop_last();
        let last = keys.last();
        assert forall|a: int, b: int| 0 <= a < b < rest.len() implies text::text_lt(
            #[trigger] rest[a],
            #[trigger] rest[b],
        ) by {
            assert(rest[a] == keys[a] && rest[b] == keys[b]);
        }
        dead_among_members(before, after, rest);
        let d = dead_among(before, after, keys);
        let p = dead_among(before, after, rest);
        assert forall|k: Seq<char>| #[trigger] d.contains(k) <==> keys.contains(k) && newly_dead(
            before,
            after,
            k,
        ) by {
            if d.contains(k) {
                let x = d.index_of(k);
                if x < p.len() {
                    assert(p[x] == k);
                    assert(p.contains(k));
                    let y = rest.index_of(k);
                    assert(keys[y] == k);
                } else {
                    assert(keys[keys.len() - 1] == k);
                }
            }
            if keys.contains(k) && newly_dead(before, after, k) {
                let y = keys.index_of(k);
                if y < rest.len() {
                    assert(rest[y] == k);
                    assert(p.contains(k));
                    let x = p.index_of(k);
                    assert(d[x] == k);
                } else {
                    assert(d[p.len() as int] == k);
                }
            }
        }
        assert forall|i: int, j: int| 0 <= i < j < d.len() implies text::text_lt(
            #[trigger] d[i],
            #[trigger] d[j],
        ) by {
            assert(d[i] == p[i]);
            if j < p.len() {
                assert(d[j] == p[j]);
            } else {
                assert(p.contains(p[i]));
                let y = rest.index_of(p[i]);
                assert(keys[y] == p[i]);
                assert(keys[keys.len() - 1] == d[j]);
            }
        }
    }
}

proof fn dead_among_lists(
    before: Map<Seq<char>, NodeModel>,
    after: Map<Seq<char>, NodeModel>,
    keys: Seq<Seq<char>>,
)
    requires
        forall|a: int, b: int|
            0 <= a < b < keys.len() ==> text::text_lt(#[trigger] keys[a], #[trigger] keys[b]),
        forall|k: Seq<char>| before.dom().contains(k) ==> keys.contains(k),
    ensures
        lists_newly_dead(before, after, dead_among(before, after, keys)),
{
    dead_among_members(before, after, keys);
}

} // verus!
