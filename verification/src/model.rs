//! Shared control-plane types, each with the mathematical value it stands for.

use crate::text::{copy_text_opt, copy_texts};
use vstd::prelude::*;

verus! {

/// A data-plane node's stable id.
pub type NodeId = String;

/// A shard id (one independent consensus group in the data plane).
pub type ShardId = u32;

/// Liveness of a node, as judged by the failure detector.
#[derive(Debug, Clone, Copy, PartialEq, Eq, Structural)]
pub enum NodeHealth {
    /// Heartbeating normally.
    Healthy,
    /// Missed recent heartbeats; placement decisions should avoid it.
    Suspect,
    /// Failure-detected; its shard replicas are being re-placed elsewhere.
    Dead,
    /// Administratively draining ahead of a scale-down or removal.
    Draining,
}

impl DeepView for NodeHealth {
    type V = NodeHealth;

    open spec fn deep_view(&self) -> NodeHealth {
        *self
    }
}

/// What is known about one data-plane node.
#[derive(Debug)]
pub struct NodeInfo {
    pub node_id: NodeId,
    pub address: String,
    pub health: NodeHealth,
    /// Cloud this node belongs to (`aws`, `gcp`, `hetzner`, ...).
    pub cloud_provider: String,
    /// Cloud or edge region (`us-east-1`, `europe-west1`, `nbg1`, ...).
    pub region: String,
    /// Kubernetes cluster identity, distinct from provider and region.
    pub cluster_id: String,
    /// Failure domain the sidecar reports. A shard's replicas are spread across distinct domains.
    /// Empty means unknown, which is treated as a domain of its own.
    pub failure_domain: String,
    /// Last heartbeat receipt (ms since epoch).
    pub last_seen_ms: u64,
    /// Shards this node reports hosting.
    pub hosted_shards: Vec<ShardId>,
    /// Shards this node reports leading.
    pub leading_shards: Vec<ShardId>,
    /// Highest heartbeat `seq` accepted from this node.
    pub last_seq: u64,
}

/// The value of a [`NodeInfo`].
#[verifier::ext_equal]
pub struct NodeModel {
    pub node_id: Seq<char>,
    pub address: Seq<char>,
    pub health: NodeHealth,
    pub cloud_provider: Seq<char>,
    pub region: Seq<char>,
    pub cluster_id: Seq<char>,
    pub failure_domain: Seq<char>,
    pub last_seen_ms: u64,
    pub hosted_shards: Seq<ShardId>,
    pub leading_shards: Seq<ShardId>,
    pub last_seq: u64,
}

impl DeepView for NodeInfo {
    type V = NodeModel;

    open spec fn deep_view(&self) -> NodeModel {
        NodeModel {
            node_id: self.node_id@,
            address: self.address@,
            health: self.health,
            cloud_provider: self.cloud_provider@,
            region: self.region@,
            cluster_id: self.cluster_id@,
            failure_domain: self.failure_domain@,
            last_seen_ms: self.last_seen_ms,
            hosted_shards: self.hosted_shards@,
            leading_shards: self.leading_shards@,
            last_seq: self.last_seq,
        }
    }
}

impl Clone for NodeInfo {
    fn clone(&self) -> (r: Self)
        ensures
            r.deep_view() == self.deep_view(),
    {
        let r = NodeInfo {
            node_id: self.node_id.clone(),
            address: self.address.clone(),
            health: self.health,
            cloud_provider: self.cloud_provider.clone(),
            region: self.region.clone(),
            cluster_id: self.cluster_id.clone(),
            failure_domain: self.failure_domain.clone(),
            last_seen_ms: self.last_seen_ms,
            hosted_shards: self.hosted_shards.clone(),
            leading_shards: self.leading_shards.clone(),
            last_seq: self.last_seq,
        };
        assert(r.deep_view() =~= self.deep_view());
        r
    }
}

/// The body a data-plane node (its sidecar) posts with each heartbeat.
#[derive(Debug)]
pub struct HeartbeatReport {
    /// Where to reach this node (host:port).
    pub address: String,
    /// Cloud provider for failure-domain normalization.
    pub cloud_provider: String,
    /// Region for leader affinity.
    pub region: String,
    /// Kubernetes cluster identity.
    pub cluster_id: String,
    /// Failure domain (region, zone or rack).
    pub failure_domain: String,
    /// Shards the node currently hosts a replica of.
    pub hosted_shards: Vec<ShardId>,
    /// Subset of `hosted_shards` this node currently leads.
    pub leading_shards: Vec<ShardId>,
    /// Monotonic per-node sequence. A report whose `seq` is not strictly greater than the last
    /// accepted one is ignored. `0` means the sender does not sequence and is never rejected.
    pub seq: u64,
}

/// The value of a [`HeartbeatReport`].
#[verifier::ext_equal]
pub struct ReportModel {
    pub address: Seq<char>,
    pub cloud_provider: Seq<char>,
    pub region: Seq<char>,
    pub cluster_id: Seq<char>,
    pub failure_domain: Seq<char>,
    pub hosted_shards: Seq<ShardId>,
    pub leading_shards: Seq<ShardId>,
    pub seq: u64,
}

impl DeepView for HeartbeatReport {
    type V = ReportModel;

    open spec fn deep_view(&self) -> ReportModel {
        ReportModel {
            address: self.address@,
            cloud_provider: self.cloud_provider@,
            region: self.region@,
            cluster_id: self.cluster_id@,
            failure_domain: self.failure_domain@,
            hosted_shards: self.hosted_shards@,
            leading_shards: self.leading_shards@,
            seq: self.seq,
        }
    }
}

impl Clone for HeartbeatReport {
    fn clone(&self) -> (r: Self)
        ensures
            r.deep_view() == self.deep_view(),
    {
        let r = HeartbeatReport {
            address: self.address.clone(),
            cloud_provider: self.cloud_provider.clone(),
            region: self.region.clone(),
            cluster_id: self.cluster_id.clone(),
            failure_domain: self.failure_domain.clone(),
            hosted_shards: self.hosted_shards.clone(),
            leading_shards: self.leading_shards.clone(),
            seq: self.seq,
        };
        assert(r.deep_view() =~= self.deep_view());
        r
    }
}

impl Default for HeartbeatReport {
    fn default() -> (r: Self)
        ensures
            r.deep_view() == (ReportModel {
                address: Seq::empty(),
                cloud_provider: Seq::empty(),
                region: Seq::empty(),
                cluster_id: Seq::empty(),
                failure_domain: Seq::empty(),
                hosted_shards: Seq::empty(),
                leading_shards: Seq::empty(),
                seq: 0,
            }),
    {
        let r = HeartbeatReport {
            address: String::new(),
            cloud_provider: String::new(),
            region: String::new(),
            cluster_id: String::new(),
            failure_domain: String::new(),
            hosted_shards: Vec::new(),
            leading_shards: Vec::new(),
            seq: 0,
        };
        assert(r.address@ =~= Seq::<char>::empty());
        r
    }
}

/// The authoritative placement for one shard: which nodes replicate it and which one should lead
/// it. Data-plane nodes reconcile toward this.
#[derive(Debug)]
pub struct ShardAssignment {
    pub shard_id: ShardId,
    /// Nodes that should hold a replica of this shard.
    pub replicas: Vec<NodeId>,
    /// The preferred leader (leadership balancing).
    pub preferred_leader: Option<NodeId>,
    /// Region requested by the shard's placement policy, when any.
    pub preferred_region: Option<String>,
    /// Cloud requested by the shard's placement policy, when any.
    pub preferred_cloud_provider: Option<String>,
}

/// The value of a [`ShardAssignment`].
#[verifier::ext_equal]
pub struct AssignmentModel {
    pub shard_id: ShardId,
    pub replicas: Seq<Seq<char>>,
    pub preferred_leader: Option<Seq<char>>,
    pub preferred_region: Option<Seq<char>>,
    pub preferred_cloud_provider: Option<Seq<char>>,
}

impl DeepView for ShardAssignment {
    type V = AssignmentModel;

    open spec fn deep_view(&self) -> AssignmentModel {
        AssignmentModel {
            shard_id: self.shard_id,
            replicas: self.replicas.deep_view(),
            preferred_leader: self.preferred_leader.deep_view(),
            preferred_region: self.preferred_region.deep_view(),
            preferred_cloud_provider: self.preferred_cloud_provider.deep_view(),
        }
    }
}

impl Clone for ShardAssignment {
    fn clone(&self) -> (r: Self)
        ensures
            r.deep_view() == self.deep_view(),
    {
        ShardAssignment {
            shard_id: self.shard_id,
            replicas: copy_texts(&self.replicas),
            preferred_leader: copy_text_opt(&self.preferred_leader),
            preferred_region: copy_text_opt(&self.preferred_region),
            preferred_cloud_provider: copy_text_opt(&self.preferred_cloud_provider),
        }
    }
}

/// Region and provider affinity for the shard that owns a namespace.
#[derive(Debug)]
pub struct PlacementPolicy {
    /// Namespace or customer key used to pick the shard.
    pub namespace: String,
    /// Shard affected by this policy.
    pub shard_id: ShardId,
    /// Preferred home region for this namespace.
    pub home_region: Option<String>,
    /// Optional provider affinity.
    pub preferred_cloud_provider: Option<String>,
}

/// The value of a [`PlacementPolicy`].
#[verifier::ext_equal]
pub struct PolicyModel {
    pub namespace: Seq<char>,
    pub shard_id: ShardId,
    pub home_region: Option<Seq<char>>,
    pub preferred_cloud_provider: Option<Seq<char>>,
}

impl DeepView for PlacementPolicy {
    type V = PolicyModel;

    open spec fn deep_view(&self) -> PolicyModel {
        PolicyModel {
            namespace: self.namespace@,
            shard_id: self.shard_id,
            home_region: self.home_region.deep_view(),
            preferred_cloud_provider: self.preferred_cloud_provider.deep_view(),
        }
    }
}

impl Clone for PlacementPolicy {
    fn clone(&self) -> (r: Self)
        ensures
            r.deep_view() == self.deep_view(),
    {
        PlacementPolicy {
            namespace: self.namespace.clone(),
            shard_id: self.shard_id,
            home_region: copy_text_opt(&self.home_region),
            preferred_cloud_provider: copy_text_opt(&self.preferred_cloud_provider),
        }
    }
}

/// The body of a policy write.
#[derive(Debug)]
pub struct PlacementPolicyUpdate {
    pub namespace: String,
    pub home_region: Option<String>,
    pub preferred_cloud_provider: Option<String>,
}

/// A scaling intent the reconciler drives toward.
#[derive(Debug, Clone, Copy, PartialEq, Eq, Structural)]
pub struct ScalePlan {
    /// Desired number of healthy data-plane nodes.
    pub target_nodes: u32,
    /// Replicas per shard (the replication factor).
    pub replication_factor: u32,
}

impl DeepView for ScalePlan {
    type V = ScalePlan;

    open spec fn deep_view(&self) -> ScalePlan {
        *self
    }
}

} // verus!
