//! How far a reconciliation spreads the replicas that it publishes over the failure domains.

use crate::cluster::{CommandModel, StateModel};
use crate::model::{AssignmentModel, ShardId};
use crate::plan;
use crate::plan::SlotModel;
use crate::plan_laws;
use crate::scheduler;
use crate::scheduler_laws;
use crate::scheduler_model;
use crate::scheduler_model::{Scene, WorkerModel};
use crate::scheduler_stability;
use vstd::prelude::*;

verus! {

/// Whether two lists of candidates are the same but for the loads.
spec fn alike(a: Seq<SlotModel>, b: Seq<SlotModel>) -> bool {
    &&& a.len() == b.len()
    &&& forall|i: int|
        0 <= i < a.len() ==> (#[trigger] a[i]).node_id == b[i].node_id && a[i].domain == b[i].domain
}

proof fn alike_slots(a: Seq<SlotModel>, b: Seq<SlotModel>, id: Seq<char>)
    requires
        alike(a, b),
    ensures
        match (plan::slot_of(a, id), plan::slot_of(b, id)) {
            (Some(s), Some(t)) => s.domain == t.domain,
            (None, None) => true,
            _ => false,
        },
    decreases a.len(),
{
    if a.len() > 0 {
        assert(a[a.len() - 1].node_id == b[b.len() - 1].node_id);
        assert forall|i: int| 0 <= i < a.len() - 1 implies (
        #[trigger] a.drop_last()[i]).node_id == b.drop_last()[i].node_id && a.drop_last()[i].domain
            == b.drop_last()[i].domain by {
            assert(a[i].node_id == b[i].node_id);
        }
        alike_slots(a.drop_last(), b.drop_last(), id);
    }
}

proof fn alike_kept(a: Seq<SlotModel>, b: Seq<SlotModel>, ids: Seq<Seq<char>>)
    requires
        alike(a, b),
    ensures
        plan::kept(ids, a) == plan::kept(ids, b),
        plan::domains(ids, a) == plan::domains(ids, b),
    decreases ids.len(),
{
    if ids.len() > 0 {
        alike_kept(a, b, ids.drop_last());
        alike_slots(a, b, ids.last());
    }
}

proof fn alike_offers(a: Seq<SlotModel>, b: Seq<SlotModel>)
    requires
        alike(a, b),
    ensures
        plan_laws::offered_domains(a) == plan_laws::offered_domains(b),
        plan_laws::listed_once(a) ==> plan_laws::listed_once(b),
{
    assert(a.map_values(|s: SlotModel| s.domain) =~= b.map_values(|s: SlotModel| s.domain));
    if plan_laws::listed_once(a) {
        assert forall|i: int, j: int| 0 <= i < j < b.len() implies (#[trigger] b[i]).node_id != (
        #[trigger] b[j]).node_id by {
            assert(a[i].node_id == b[i].node_id && a[j].node_id == b[j].node_id);
        }
    }
}

/// Whether two lists of workers are the same nodes in the same order.
spec fn same_nodes(a: Seq<WorkerModel>, b: Seq<WorkerModel>) -> bool {
    a.len() == b.len() && forall|i: int| 0 <= i < a.len() ==> (#[trigger] a[i]).node == b[i].node
}

proof fn same_nodes_at(scene: Scene, workers: Seq<WorkerModel>, shard: nat)
    ensures
        same_nodes(scene.workers_at(workers, shard), workers),
    decreases shard,
{
    if shard > 0 {
        let before = scene.workers_at(workers, (shard - 1) as nat);
        let k = (shard - 1) as ShardId;
        same_nodes_at(scene, workers, (shard - 1) as nat);
        let u = scheduler_model::unloaded(before, scene.current_replicas(k));
        scheduler_stability::loads_keep_nodes(before, scene.current_replicas(k));
        scheduler_stability::loads_keep_nodes(u, scene.desired(before, k));
    }
}

/// Where an assignment of a reconciliation comes from: the workers as they stand when its shard
/// comes up.
proof fn published_when(scene: Scene, workers: Seq<WorkerModel>, n: nat, k: int)
    requires
        n <= u32::MAX,
        0 <= k < scene.assigns(workers, n).len(),
    ensures
        scene.assigns(workers, n)[k] matches CommandModel::AssignShard(a) && a == scene.wanted(
            scene.workers_at(workers, a.shard_id as nat),
            a.shard_id,
        ),
    decreases n,
{
    let before = scene.assigns(workers, (n - 1) as nat);
    if k < before.len() {
        published_when(scene, workers, (n - 1) as nat, k);
    }
}

/// Every assignment that a reconciliation publishes is spread as far as the workers allow: next to
/// the replicas that stay, each replica that is added stands in a failure domain of its own, until
/// every domain the workers offer has one.
pub proof fn published_replicas_are_spread(s: StateModel, k: int, a: AssignmentModel)
    requires
        scheduler_stability::is_registry(s.nodes),
        0 <= k < scheduler::reconciliation(s).len(),
        scheduler::reconciliation(s)[k] == CommandModel::AssignShard(a),
    ensures
        ({
            let slots = scheduler_model::slots(scheduler_stability::workers_of(s));
            let scene = scheduler_stability::scene_of(s);
            let kept = plan::kept(scene.current_replicas(a.shard_id), slots);
            kept.len() <= scene.rf ==> plan::domains(a.replicas, slots).len() >= plan_laws::lower(
                plan::domains(kept, slots).len() + a.replicas.len() - kept.len(),
                plan_laws::offered_domains(slots).len() as int,
            )
        }),
{
    let scene = scheduler_stability::scene_of(s);
    let first = scheduler_stability::workers_of(s);
    let n = s.placement.shard_count as nat;
    let assigns = scene.assigns(first, n);
    let forgets = scheduler_model::forgets(crate::membership::listing(s.nodes));
    assert(scheduler::reconciliation(s) == assigns + forgets);
    if k >= assigns.len() {
        scheduler_laws::only_evacuated_nodes_are_removed(
            crate::membership::listing(s.nodes),
            k - assigns.len(),
        );
        assert((assigns + forgets)[k] == forgets[k - assigns.len()]);
    }
    published_when(scene, first, n, k);
    let at = scene.workers_at(first, a.shard_id as nat);
    same_nodes_at(scene, first, a.shard_id as nat);
    let slots = scheduler_model::slots(first);
    let now = scheduler_model::slots(at);
    assert(alike(slots, now)) by {
        assert forall|i: int| 0 <= i < slots.len() implies (#[trigger] slots[i]).node_id
            == now[i].node_id && slots[i].domain == now[i].domain by {
            assert(at[i].node == first[i].node);
        }
    }
    scheduler_stability::workers_are_distinct(s);
    alike_offers(slots, now);
    let current = scene.current_replicas(a.shard_id);
    alike_kept(slots, now, current);
    alike_kept(slots, now, plan::kept(current, slots));
    alike_kept(slots, now, a.replicas);
    scheduler_laws::wanted_replicas_are_spread(scene, at, a.shard_id);
}

} // verus!
