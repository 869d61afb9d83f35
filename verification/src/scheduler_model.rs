//! What one reconciliation decides, as mathematics: from the known nodes, the placement map, the
//! policies and the scale plan to the commands that bring the map closer to the plan.

use crate::cluster::CommandModel;
use crate::leadership;
use crate::leadership::LeaderModel;
use crate::model::{AssignmentModel, NodeHealth, NodeModel, PolicyModel, ScalePlan, ShardId};
use crate::plan;
use crate::plan::SlotModel;
use crate::text;
use vstd::prelude::*;

verus! {

/// A node that takes part in placement, with the replicas it holds and the shards it should lead.
#[verifier::ext_equal]
pub struct WorkerModel {
    pub node: NodeModel,
    pub load: u32,
    pub leads: u32,
}

/// `n`, or the largest count there is.
pub open spec fn counted(n: nat) -> u32 {
    if n <= u32::MAX {
        n as u32
    } else {
        u32::MAX
    }
}

/// How often a list names a node.
pub open spec fn times_named(ids: Seq<Seq<char>>, id: Seq<char>) -> nat
    decreases ids.len(),
{
    if ids.len() == 0 {
        0
    } else {
        times_named(ids.drop_last(), id) + if ids.last() == id {
            1nat
        } else {
            0nat
        }
    }
}

/// How many replicas a node holds over all assignments.
pub open spec fn replicas_held(assignments: Seq<AssignmentModel>, id: Seq<char>) -> nat
    decreases assignments.len(),
{
    if assignments.len() == 0 {
        0
    } else {
        replicas_held(assignments.drop_last(), id) + times_named(assignments.last().replicas, id)
    }
}

/// How many shards a node should lead over all assignments.
pub open spec fn shards_led(assignments: Seq<AssignmentModel>, id: Seq<char>) -> nat
    decreases assignments.len(),
{
    if assignments.len() == 0 {
        0
    } else {
        shards_led(assignments.drop_last(), id) + if assignments.last().preferred_leader == Some(
            id,
        ) {
            1nat
        } else {
            0nat
        }
    }
}

/// The healthy nodes in order, with their loads.
pub open spec fn healthy_workers(
    nodes: Seq<NodeModel>,
    assignments: Seq<AssignmentModel>,
) -> Seq<WorkerModel>
    decreases nodes.len(),
{
    if nodes.len() == 0 {
        Seq::empty()
    } else {
        let before = healthy_workers(nodes.drop_last(), assignments);
        let node = nodes.last();
        if node.health == NodeHealth::Healthy {
            before.push(
                WorkerModel {
                    node,
                    load: counted(replicas_held(assignments, node.node_id)),
                    leads: counted(shards_led(assignments, node.node_id)),
                },
            )
        } else {
            before
        }
    }
}

/// Whether `a` is kept before `b` when there are more healthy nodes than the plan wants: the
/// heavier one first, then the lower id.
pub open spec fn kept_before(a: WorkerModel, b: WorkerModel) -> bool {
    a.load > b.load || a.load == b.load && text::text_lt(a.node.node_id, b.node.node_id)
}

/// How many of the workers are kept before `w`.
pub open spec fn rank(workers: Seq<WorkerModel>, w: WorkerModel) -> nat
    decreases workers.len(),
{
    if workers.len() == 0 {
        0
    } else {
        rank(workers.drop_last(), w) + if kept_before(workers.last(), w) {
            1nat
        } else {
            0nat
        }
    }
}

/// Those of `some` that rank among the first `target` of `all`, in order.
pub open spec fn top(some: Seq<WorkerModel>, all: Seq<WorkerModel>, target: nat) -> Seq<WorkerModel>
    decreases some.len(),
{
    if some.len() == 0 {
        Seq::empty()
    } else {
        let before = top(some.drop_last(), all, target);
        if rank(all, some.last()) < target {
            before.push(some.last())
        } else {
            before
        }
    }
}

/// The workers that the plan wants: all healthy ones, or the `target` heaviest of them.
pub open spec fn active_workers(all: Seq<WorkerModel>, target: nat) -> Seq<WorkerModel> {
    if all.len() <= target {
        all
    } else {
        top(all, all, target)
    }
}

/// Whether a node is known, at any health.
pub open spec fn known(nodes: Seq<NodeModel>, id: Seq<char>) -> bool {
    exists|i: int| 0 <= i < nodes.len() && (#[trigger] nodes[i]).node_id == id
}

/// Whether all of `ids` are known.
pub open spec fn all_known(nodes: Seq<NodeModel>, ids: Seq<Seq<char>>) -> bool {
    forall|i: int| 0 <= i < ids.len() ==> known(nodes, #[trigger] ids[i])
}

/// The leader the nodes report for a shard: the last healthy one that claims it.
pub open spec fn observed_leader(nodes: Seq<NodeModel>, shard: ShardId) -> Option<Seq<char>>
    decreases nodes.len(),
{
    if nodes.len() == 0 {
        None
    } else {
        let node = nodes.last();
        if node.health == NodeHealth::Healthy && node.leading_shards.contains(shard) {
            Some(node.node_id)
        } else {
            observed_leader(nodes.drop_last(), shard)
        }
    }
}

/// `before`, and `id` once more for each time `hosted` names the shard.
pub open spec fn hosting(
    before: Seq<Seq<char>>,
    id: Seq<char>,
    hosted: Seq<ShardId>,
    shard: ShardId,
) -> Seq<Seq<char>>
    decreases hosted.len(),
{
    if hosted.len() == 0 {
        before
    } else {
        let rest = hosting(before, id, hosted.drop_last(), shard);
        if hosted.last() == shard {
            rest.push(id)
        } else {
            rest
        }
    }
}

/// The replicas the healthy nodes report for a shard.
pub open spec fn observed_replicas(nodes: Seq<NodeModel>, shard: ShardId) -> Seq<Seq<char>>
    decreases nodes.len(),
{
    if nodes.len() == 0 {
        Seq::empty()
    } else {
        let before = observed_replicas(nodes.drop_last(), shard);
        let node = nodes.last();
        if node.health == NodeHealth::Healthy {
            hosting(before, node.node_id, node.hosted_shards, shard)
        } else {
            before
        }
    }
}

/// The placement candidates.
pub open spec fn slots(workers: Seq<WorkerModel>) -> Seq<SlotModel> {
    Seq::new(
        workers.len(),
        |i: int|
            SlotModel {
                node_id: workers[i].node.node_id,
                domain: workers[i].node.failure_domain,
                load: workers[i].load,
            },
    )
}

/// The ids of the workers.
pub open spec fn worker_ids(workers: Seq<WorkerModel>) -> Set<Seq<char>>
    decreases workers.len(),
{
    if workers.len() == 0 {
        Set::empty()
    } else {
        worker_ids(workers.drop_last()).insert(workers.last().node.node_id)
    }
}

/// One replica more on a node.
pub open spec fn one_more(workers: Seq<WorkerModel>, id: Seq<char>) -> Seq<WorkerModel> {
    Seq::new(
        workers.len(),
        |i: int|
            if workers[i].node.node_id == id && workers[i].load < u32::MAX {
                WorkerModel { load: (workers[i].load + 1) as u32, ..workers[i] }
            } else {
                workers[i]
            },
    )
}

/// One replica less on a node.
pub open spec fn one_less(workers: Seq<WorkerModel>, id: Seq<char>) -> Seq<WorkerModel> {
    Seq::new(
        workers.len(),
        |i: int|
            if workers[i].node.node_id == id && workers[i].load > 0 {
                WorkerModel { load: (workers[i].load - 1) as u32, ..workers[i] }
            } else {
                workers[i]
            },
    )
}

/// A replica more on each of `ids`.
pub open spec fn loaded(workers: Seq<WorkerModel>, ids: Seq<Seq<char>>) -> Seq<WorkerModel>
    decreases ids.len(),
{
    if ids.len() == 0 {
        workers
    } else {
        one_more(loaded(workers, ids.drop_last()), ids.last())
    }
}

/// A replica less on each of `ids`.
pub open spec fn unloaded(workers: Seq<WorkerModel>, ids: Seq<Seq<char>>) -> Seq<WorkerModel>
    decreases ids.len(),
{
    if ids.len() == 0 {
        workers
    } else {
        one_less(unloaded(workers, ids.drop_last()), ids.last())
    }
}

/// A shard more to lead.
pub open spec fn leading_more(workers: Seq<WorkerModel>, id: Option<Seq<char>>) -> Seq<WorkerModel> {
    Seq::new(
        workers.len(),
        |i: int|
            if id == Some(workers[i].node.node_id) && workers[i].leads < u32::MAX {
                WorkerModel { leads: (workers[i].leads + 1) as u32, ..workers[i] }
            } else {
                workers[i]
            },
    )
}

/// A shard less to lead.
pub open spec fn leading_less(workers: Seq<WorkerModel>, id: Option<Seq<char>>) -> Seq<WorkerModel> {
    Seq::new(
        workers.len(),
        |i: int|
            if id == Some(workers[i].node.node_id) && workers[i].leads > 0 {
                WorkerModel { leads: (workers[i].leads - 1) as u32, ..workers[i] }
            } else {
                workers[i]
            },
    )
}

/// The slot of a worker as a leader candidate.
pub open spec fn leader_slot(workers: Seq<WorkerModel>, id: Seq<char>) -> LeaderModel
    decreases workers.len(),
{
    if workers.len() == 0 {
        LeaderModel {
            node_id: id,
            cloud_provider: Seq::empty(),
            region: Seq::empty(),
            leader_load: 0,
        }
    } else if workers.last().node.node_id == id {
        LeaderModel {
            node_id: id,
            cloud_provider: workers.last().node.cloud_provider,
            region: workers.last().node.region,
            leader_load: workers.last().leads,
        }
    } else {
        leader_slot(workers.drop_last(), id)
    }
}

/// The leader candidates among the replicas.
pub open spec fn leader_slots(workers: Seq<WorkerModel>, replicas: Seq<Seq<char>>) -> Seq<
    LeaderModel,
> {
    Seq::new(replicas.len(), |i: int| leader_slot(workers, replicas[i]))
}

/// Whether the replica at `i` may give way to `s`: the failure domains stay as spread as they
/// are, and the move evens the load out.
pub open spec fn may_give_way(
    replicas: Seq<Seq<char>>,
    healthy: Seq<SlotModel>,
    i: int,
    s: SlotModel,
) -> bool {
    &&& plan::slot_of(healthy, replicas[i]) matches Some(r) && r.load >= s.load + 2 && (r.domain
        == s.domain || !plan::domains(replicas.remove(i), healthy).contains(s.domain))
}

/// The most loaded replica among the first `n` that may give way to `s`.
pub open spec fn giving_way(
    replicas: Seq<Seq<char>>,
    healthy: Seq<SlotModel>,
    s: SlotModel,
    n: int,
) -> Option<int>
    decreases n,
{
    if n <= 0 {
        None
    } else {
        let before = giving_way(replicas, healthy, s, n - 1);
        if !may_give_way(replicas, healthy, n - 1, s) {
            before
        } else {
            match before {
                None => Some(n - 1),
                Some(v) => if plan::load_of(healthy, replicas[n - 1]) > plan::load_of(
                    healthy,
                    replicas[v],
                ) {
                    Some(n - 1)
                } else {
                    Some(v)
                },
            }
        }
    }
}

/// The replicas after at most one of them has moved to the least loaded other candidate.
pub open spec fn rebalanced(replicas: Seq<Seq<char>>, healthy: Seq<SlotModel>) -> Seq<Seq<char>> {
    let rest = plan::others(healthy, replicas);
    if rest.len() == 0 {
        replicas
    } else {
        let s = rest[plan::best(rest, Set::empty())];
        match giving_way(replicas, healthy, s, replicas.len() as int) {
            Some(v) => replicas.update(v, s.node_id),
            None => replicas,
        }
    }
}

/// What is fixed during one reconciliation.
pub struct Scene {
    pub nodes: Seq<NodeModel>,
    pub assignments: Map<ShardId, AssignmentModel>,
    pub policies: Map<ShardId, PolicyModel>,
    /// Replicas per shard.
    pub rf: nat,
}

impl Scene {
    /// The assignment of a shard, if it has one.
    pub open spec fn current(self, shard: ShardId) -> Option<AssignmentModel> {
        if self.assignments.dom().contains(shard) {
            Some(self.assignments[shard])
        } else {
            None
        }
    }

    /// The policy of a shard, if it has one.
    pub open spec fn policy(self, shard: ShardId) -> Option<PolicyModel> {
        if self.policies.dom().contains(shard) {
            Some(self.policies[shard])
        } else {
            None
        }
    }

    /// The replicas to start from: the assigned ones, or on a cold start the reported ones.
    pub open spec fn current_replicas(self, shard: ShardId) -> Seq<Seq<char>> {
        match self.current(shard) {
            Some(a) => a.replicas,
            None => observed_replicas(self.nodes, shard),
        }
    }

    /// The replicas that placement alone asks for.
    pub open spec fn planned(self, workers: Seq<WorkerModel>, shard: ShardId) -> Seq<Seq<char>> {
        plan::planned(self.current_replicas(shard), slots(workers), self.rf as int)
    }

    /// Whether a shard is left alone: one of its replicas is on a node not heard from yet, or the
    /// healthy nodes do not suffice to keep as many replicas as it has.
    pub open spec fn held(self, workers: Seq<WorkerModel>, shard: ShardId) -> bool {
        let now = self.current_replicas(shard);
        ||| !all_known(self.nodes, now)
        ||| self.planned(workers, shard).len() < now.len() && self.planned(workers, shard).len()
            < self.rf
    }

    /// The replicas a shard should have. Once an assigned shard is where placement wants it, a
    /// replica may move to even the load out.
    pub open spec fn desired(self, workers: Seq<WorkerModel>, shard: ShardId) -> Seq<Seq<char>> {
        let p = self.planned(workers, shard);
        match self.current(shard) {
            Some(a) => if a.replicas == p {
                rebalanced(p, slots(workers))
            } else {
                p
            },
            None => p,
        }
    }

    /// The leader a shard has been assigned.
    pub open spec fn previous_leader(self, shard: ShardId) -> Option<Seq<char>> {
        match self.current(shard) {
            Some(a) => a.preferred_leader,
            None => None,
        }
    }

    /// The workers once the shard's replicas stand as desired and its leader is still open.
    pub open spec fn replaced(self, workers: Seq<WorkerModel>, shard: ShardId) -> Seq<WorkerModel> {
        leading_less(
            loaded(
                unloaded(workers, self.current_replicas(shard)),
                self.desired(workers, shard),
            ),
            self.previous_leader(shard),
        )
    }

    /// The leader a shard should have.
    pub open spec fn leader(self, workers: Seq<WorkerModel>, shard: ShardId) -> Option<Seq<char>> {
        let d = self.desired(workers, shard);
        let observed = observed_leader(self.nodes, shard);
        let ids = worker_ids(workers);
        let affinity = leadership::best_leader_id(
            leader_slots(self.replaced(workers, shard), d),
            d,
            ids,
            self.policy(shard),
            observed,
        );
        leadership::leader_of(affinity, d, ids, observed)
    }

    /// The assignment a shard should have.
    pub open spec fn wanted(self, workers: Seq<WorkerModel>, shard: ShardId) -> AssignmentModel {
        AssignmentModel {
            shard_id: shard,
            replicas: self.desired(workers, shard),
            preferred_leader: self.leader(workers, shard),
            preferred_region: leadership::region_wish(self.policy(shard)),
            preferred_cloud_provider: leadership::cloud_wish(self.policy(shard)),
        }
    }

    /// Whether the wanted assignment is published: it differs from the current one, or it is the
    /// first and names a replica.
    pub open spec fn published(self, workers: Seq<WorkerModel>, shard: ShardId) -> bool {
        let w = self.wanted(workers, shard);
        match self.current(shard) {
            None => w.replicas.len() > 0,
            Some(a) => {
                ||| a.replicas != w.replicas
                ||| a.preferred_leader != w.preferred_leader
                ||| a.preferred_region != w.preferred_region
                ||| a.preferred_cloud_provider != w.preferred_cloud_provider
            },
        }
    }

    /// The workers after a shard is dealt with.
    pub open spec fn workers_after(self, workers: Seq<WorkerModel>, shard: ShardId) -> Seq<
        WorkerModel,
    > {
        if self.held(workers, shard) {
            workers
        } else {
            leading_more(self.replaced(workers, shard), self.leader(workers, shard))
        }
    }

    /// The workers when `shard` comes up.
    pub open spec fn workers_at(self, workers: Seq<WorkerModel>, shard: nat) -> Seq<WorkerModel>
        decreases shard,
    {
        if shard == 0 {
            workers
        } else {
            self.workers_after(
                self.workers_at(workers, (shard - 1) as nat),
                (shard - 1) as ShardId,
            )
        }
    }

    /// The assignments published for the shards below `n`.
    pub open spec fn assigns(self, workers: Seq<WorkerModel>, n: nat) -> Seq<CommandModel>
        decreases n,
    {
        if n == 0 {
            Seq::empty()
        } else {
            let before = self.assigns(workers, (n - 1) as nat);
            let shard = (n - 1) as ShardId;
            let at = self.workers_at(workers, (n - 1) as nat);
            if !self.held(at, shard) && self.published(at, shard) {
                before.push(CommandModel::AssignShard(self.wanted(at, shard)))
            } else {
                before
            }
        }
    }
}

/// The removals: every draining node that reports hosting nothing.
pub open spec fn forgets(nodes: Seq<NodeModel>) -> Seq<CommandModel>
    decreases nodes.len(),
{
    if nodes.len() == 0 {
        Seq::empty()
    } else {
        let before = forgets(nodes.drop_last());
        let node = nodes.last();
        if node.health == NodeHealth::Draining && node.hosted_shards.len() == 0 {
            before.push(CommandModel::ForgetNode(node.node_id))
        } else {
            before
        }
    }
}

/// The replication factor a plan asks for, at least one.
pub open spec fn plan_rf(scale: ScalePlan) -> nat {
    if scale.replication_factor >= 1 {
        scale.replication_factor as nat
    } else {
        1
    }
}

/// The number of nodes a plan asks for, at least the replication factor.
pub open spec fn plan_target(scale: ScalePlan) -> nat {
    if scale.target_nodes >= plan_rf(scale) {
        scale.target_nodes as nat
    } else {
        plan_rf(scale)
    }
}

/// The scene of a reconciliation.
pub open spec fn scene(
    nodes: Seq<NodeModel>,
    assignments: Map<ShardId, AssignmentModel>,
    policies: Map<ShardId, PolicyModel>,
    scale: ScalePlan,
) -> Scene {
    Scene { nodes, assignments, policies, rf: plan_rf(scale) }
}

/// The workers a reconciliation starts with.
pub open spec fn first_workers(
    nodes: Seq<NodeModel>,
    listed: Seq<AssignmentModel>,
    scale: ScalePlan,
) -> Seq<WorkerModel> {
    active_workers(healthy_workers(nodes, listed), plan_target(scale))
}

} // verus!
