//! What every reconciliation keeps.

use crate::cluster::{CommandModel, StateModel};
use crate::leadership;
use crate::model::{NodeHealth, NodeModel, ShardId};
use crate::plan;
use crate::plan::SlotModel;
use crate::plan_laws;
use crate::scheduler;
use crate::scheduler_model;
use crate::scheduler_model::{Scene, WorkerModel};
use vstd::prelude::*;

verus! {

/// A shard with a replica on a node not heard from is left alone: nothing is published for it and
/// no load moves. Right after a failover this keeps live replicas that have not reported yet.
pub proof fn unheard_replicas_hold_the_shard(
    scene: Scene,
    workers: Seq<WorkerModel>,
    shard: ShardId,
    i: int,
)
    requires
        0 <= i < scene.current_replicas(shard).len(),
        !scheduler_model::known(scene.nodes, scene.current_replicas(shard)[i]),
    ensures
        scene.held(workers, shard),
        scene.workers_after(workers, shard) == workers,
{
}

proof fn giving_way_in_range(
    replicas: Seq<Seq<char>>,
    healthy: Seq<SlotModel>,
    s: SlotModel,
    n: int,
)
    requires
        0 <= n <= replicas.len(),
    ensures
        scheduler_model::giving_way(replicas, healthy, s, n) matches Some(v) ==> 0 <= v < n
            && scheduler_model::may_give_way(replicas, healthy, v, s),
    decreases n,
{
    if n > 0 {
        giving_way_in_range(replicas, healthy, s, n - 1);
    }
}

/// Evening the load out moves at most one replica of a shard, to a candidate, and never changes
/// how many there are.
pub proof fn rebalancing_moves_at_most_one(replicas: Seq<Seq<char>>, healthy: Seq<SlotModel>)
    ensures
        ({
            let r = scheduler_model::rebalanced(replicas, healthy);
            &&& r.len() == replicas.len()
            &&& r == replicas || exists|v: int, i: int|
                0 <= v < replicas.len() && 0 <= i < healthy.len() && r == #[trigger] replicas.update(
                    v,
                    (#[trigger] healthy[i]).node_id,
                ) && !replicas.contains(healthy[i].node_id) && plan::load_of(healthy, replicas[v])
                    >= healthy[i].load + 2
        }),
{
    let rest = plan::others(healthy, replicas);
    if rest.len() > 0 {
        plan::best_in_range(rest, Set::empty());
        let b = plan::best(rest, Set::empty());
        let s = rest[b];
        giving_way_in_range(replicas, healthy, s, replicas.len() as int);
        if let Some(v) = scheduler_model::giving_way(replicas, healthy, s, replicas.len() as int) {
            plan_laws::others_are_candidates(healthy, replicas);
            assert(healthy.contains(rest[b]));
            let i = choose|i: int| 0 <= i < healthy.len() && healthy[i] == rest[b];
            assert(scheduler_model::rebalanced(replicas, healthy) == replicas.update(
                v,
                healthy[i].node_id,
            ));
        }
    }
}

/// Evening the load out never leaves the replicas in fewer failure domains than they were in.
pub proof fn rebalancing_keeps_the_spread(replicas: Seq<Seq<char>>, healthy: Seq<SlotModel>)
    requires
        plan_laws::listed_once(healthy),
    ensures
        plan::domains(scheduler_model::rebalanced(replicas, healthy), healthy).len()
            >= plan::domains(replicas, healthy).len(),
{
    let rest = plan::others(healthy, replicas);
    if rest.len() > 0 {
        plan::best_in_range(rest, Set::empty());
        let s = rest[plan::best(rest, Set::empty())];
        giving_way_in_range(replicas, healthy, s, replicas.len() as int);
        if let Some(v) = scheduler_model::giving_way(replicas, healthy, s, replicas.len() as int) {
            plan_laws::others_are_candidates(healthy, replicas);
            assert(healthy.contains(s));
            let i = choose|i: int| 0 <= i < healthy.len() && healthy[i] == s;
            plan_laws::slot_of_listed_once(healthy, i);
            let without = plan::domains(replicas.remove(v), healthy);
            plan_laws::domains_of_candidates(replicas.remove(v), healthy);
            replacing_changes_one_domain(replicas, healthy, v, replicas[v]);
            replacing_changes_one_domain(replicas, healthy, v, s.node_id);
            assert(replicas.update(v, replicas[v]) =~= replicas);
            let r = plan::slot_of(healthy, replicas[v])->0;
            assert(plan::domains(replicas, healthy) == without.insert(r.domain));
            assert(plan::domains(replicas.update(v, s.node_id), healthy) == without.insert(
                s.domain,
            ));
        }
    }
}

proof fn replacing_changes_one_domain(
    replicas: Seq<Seq<char>>,
    healthy: Seq<SlotModel>,
    v: int,
    id: Seq<char>,
)
    requires
        0 <= v < replicas.len(),
        plan::slot_of(healthy, id) is Some,
    ensures
        plan::domains(replicas.update(v, id), healthy) == plan::domains(
            replicas.remove(v),
            healthy,
        ).insert(plan::slot_of(healthy, id)->0.domain),
{
    let now = replicas.update(v, id);
    let without = replicas.remove(v);
    let there = plan::domains(without, healthy).insert(plan::slot_of(healthy, id)->0.domain);
    plan_laws::domains_of_candidates(now, healthy);
    plan_laws::domains_of_candidates(without, healthy);
    assert forall|d: Seq<char>| plan::domains(now, healthy).contains(d) <==> there.contains(d) by {
        if plan::domains(now, healthy).contains(d) {
            let k = choose|k: int|
                0 <= k < now.len() && (plan::slot_of(healthy, #[trigger] now[k]) matches Some(s)
                    && s.domain == d);
            if k != v {
                assert(without[if k < v { k } else { k - 1 }] == now[k]);
            }
        }
        if there.contains(d) {
            if plan::domains(without, healthy).contains(d) {
                let k = choose|k: int|
                    0 <= k < without.len() && (plan::slot_of(
                        healthy,
                        #[trigger] without[k],
                    ) matches Some(s) && s.domain == d);
                assert(now[if k < v { k } else { k + 1 }] == without[k]);
            } else {
                assert(now[v] == id);
            }
        }
    }
    assert(plan::domains(now, healthy) =~= there);
}

/// How far a shard's wanted replicas are spread: over no fewer failure domains than placement
/// alone asks for, so that each replica that is added stands in a domain of its own until every
/// domain the workers offer has one.
pub proof fn wanted_replicas_are_spread(
    scene: Scene,
    workers: Seq<WorkerModel>,
    shard: ShardId,
)
    requires
        plan_laws::listed_once(scheduler_model::slots(workers)),
    ensures
        ({
            let slots = scheduler_model::slots(workers);
            let kept = plan::kept(scene.current_replicas(shard), slots);
            let r = scene.wanted(workers, shard).replicas;
            &&& plan::domains(r, slots).len() >= plan::domains(
                scene.planned(workers, shard),
                slots,
            ).len()
            &&& kept.len() <= scene.rf ==> plan::domains(r, slots).len() >= plan_laws::lower(
                plan::domains(kept, slots).len() + r.len() - kept.len(),
                plan_laws::offered_domains(slots).len() as int,
            )
        }),
{
    let slots = scheduler_model::slots(workers);
    let p = scene.planned(workers, shard);
    rebalancing_keeps_the_spread(p, slots);
    rebalancing_moves_at_most_one(p, slots);
    if plan::kept(scene.current_replicas(shard), slots).len() <= scene.rf {
        plan_laws::plan_spreads_domains(scene.current_replicas(shard), slots, scene.rf as int);
    }
}

/// A published assignment never has fewer replicas than the shard had, up to the replication
/// factor: lost capacity cannot shrink the last authoritative assignment.
pub proof fn published_sets_never_shrink(
    scene: Scene,
    workers: Seq<WorkerModel>,
    shard: ShardId,
)
    requires
        !scene.held(workers, shard),
    ensures
        ({
            let n = scene.wanted(workers, shard).replicas.len();
            n >= scene.current_replicas(shard).len() || n >= scene.rf
        }),
{
    rebalancing_moves_at_most_one(
        scene.planned(workers, shard),
        scheduler_model::slots(workers),
    );
}

/// A published assignment never has more replicas than the replication factor.
pub proof fn published_sets_fit_the_factor(
    scene: Scene,
    workers: Seq<WorkerModel>,
    shard: ShardId,
)
    ensures
        scene.wanted(workers, shard).replicas.len() <= scene.rf,
{
    plan_laws::plan_size(
        scene.current_replicas(shard),
        scheduler_model::slots(workers),
        scene.rf as int,
    );
    rebalancing_moves_at_most_one(
        scene.planned(workers, shard),
        scheduler_model::slots(workers),
    );
}

proof fn worker_ids_contains(workers: Seq<WorkerModel>, i: int)
    requires
        0 <= i < workers.len(),
    ensures
        scheduler_model::worker_ids(workers).contains(workers[i].node.node_id),
    decreases workers.len(),
{
    if i < workers.len() - 1 {
        worker_ids_contains(workers.drop_last(), i);
        assert(workers.drop_last()[i] == workers[i]);
    }
}

proof fn slot_is_worker(workers: Seq<WorkerModel>, id: Seq<char>)
    requires
        plan::slot_of(scheduler_model::slots(workers), id) is Some,
    ensures
        scheduler_model::worker_ids(workers).contains(id),
{
    plan_laws::slot_of_is_listed(scheduler_model::slots(workers), id);
    let slots = scheduler_model::slots(workers);
    let i = choose|i: int| 0 <= i < slots.len() && (#[trigger] slots[i]).node_id == id;
    worker_ids_contains(workers, i);
}

/// Every replica of a published assignment is on a worker: a healthy node that the plan wants.
/// Dead, suspect, draining and surplus nodes lose their replicas.
pub proof fn replicas_are_on_workers(
    scene: Scene,
    workers: Seq<WorkerModel>,
    shard: ShardId,
    k: int,
)
    requires
        0 <= k < scene.wanted(workers, shard).replicas.len(),
    ensures
        scheduler_model::worker_ids(workers).contains(scene.wanted(workers, shard).replicas[k]),
{
    let slots = scheduler_model::slots(workers);
    let p = scene.planned(workers, shard);
    let d = scene.desired(workers, shard);
    rebalancing_moves_at_most_one(p, slots);
    if d.len() == p.len() && d[k] == p[k] {
        plan_laws::plan_names_candidates(
            scene.current_replicas(shard),
            slots,
            scene.rf as int,
            k,
        );
        slot_is_worker(workers, d[k]);
    } else {
        let (v, i) = choose|v: int, i: int|
            0 <= v < p.len() && 0 <= i < slots.len() && d == #[trigger] p.update(
                v,
                (#[trigger] slots[i]).node_id,
            ) && !p.contains(slots[i].node_id) && plan::load_of(slots, p[v]) >= slots[i].load + 2;
        assert(k == v);
        worker_ids_contains(workers, i);
    }
}

/// Every worker is healthy and known.
pub proof fn workers_are_healthy(
    nodes: Seq<NodeModel>,
    s: StateModel,
    target: nat,
    i: int,
)
    requires
        ({
            let listed = crate::placement::assignment_listing(s.placement.assignments);
            0 <= i < scheduler_model::active_workers(
                scheduler_model::healthy_workers(nodes, listed),
                target,
            ).len()
        }),
    ensures
        ({
            let listed = crate::placement::assignment_listing(s.placement.assignments);
            let w = scheduler_model::active_workers(
                scheduler_model::healthy_workers(nodes, listed),
                target,
            )[i];
            w.node.health == NodeHealth::Healthy && nodes.contains(w.node)
        }),
{
    let listed = crate::placement::assignment_listing(s.placement.assignments);
    let all = scheduler_model::healthy_workers(nodes, listed);
    healthy_workers_listed(nodes, listed);
    if all.len() > target {
        top_listed(all, all, target);
        let t = scheduler_model::top(all, all, target);
        let x = choose|x: int| 0 <= x < all.len() && all[x] == t[i];
        assert(all[x].node.health == NodeHealth::Healthy);
    } else {
        assert(all[i].node.health == NodeHealth::Healthy);
    }
}

proof fn healthy_workers_listed(
    nodes: Seq<NodeModel>,
    listed: Seq<crate::model::AssignmentModel>,
)
    ensures
        forall|i: int|
            0 <= i < scheduler_model::healthy_workers(nodes, listed).len() ==> (
            #[trigger] scheduler_model::healthy_workers(nodes, listed)[i]).node.health
                == NodeHealth::Healthy && nodes.contains(
                scheduler_model::healthy_workers(nodes, listed)[i].node,
            ),
    decreases nodes.len(),
{
    if nodes.len() > 0 {
        let rest = nodes.drop_last();
        healthy_workers_listed(rest, listed);
        let all = scheduler_model::healthy_workers(nodes, listed);
        let p = scheduler_model::healthy_workers(rest, listed);
        assert forall|i: int| 0 <= i < all.len() implies (#[trigger] all[i]).node.health
            == NodeHealth::Healthy && nodes.contains(all[i].node) by {
            if i < p.len() {
                assert(all[i] == p[i]);
                let x = choose|x: int| 0 <= x < rest.len() && rest[x] == p[i].node;
                assert(nodes[x] == all[i].node);
            } else {
                assert(nodes[nodes.len() - 1] == all[i].node);
            }
        }
    }
}

proof fn top_listed(some: Seq<WorkerModel>, all: Seq<WorkerModel>, target: nat)
    ensures
        forall|i: int|
            0 <= i < scheduler_model::top(some, all, target).len() ==> some.contains(
                #[trigger] scheduler_model::top(some, all, target)[i],
            ),
    decreases some.len(),
{
    if some.len() > 0 {
        let rest = some.drop_last();
        top_listed(rest, all, target);
        let t = scheduler_model::top(some, all, target);
        let p = scheduler_model::top(rest, all, target);
        assert forall|i: int| 0 <= i < t.len() implies some.contains(#[trigger] t[i]) by {
            if i < p.len() {
                assert(t[i] == p[i]);
                let x = choose|x: int| 0 <= x < rest.len() && rest[x] == p[i];
                assert(some[x] == t[i]);
            } else {
                assert(some[some.len() - 1] == t[i]);
            }
        }
    }
}

/// The leader of a published assignment is one of its replicas and a worker; a shard with a
/// replica on a worker has one.
pub proof fn leader_is_a_replica(scene: Scene, workers: Seq<WorkerModel>, shard: ShardId)
    ensures
        ({
            let w = scene.wanted(workers, shard);
            &&& w.preferred_leader matches Some(l) ==> w.replicas.contains(l)
                && scheduler_model::worker_ids(workers).contains(l)
            &&& w.replicas.len() > 0 ==> w.preferred_leader is Some
        }),
{
    let d = scene.desired(workers, shard);
    let observed = scheduler_model::observed_leader(scene.nodes, shard);
    let ids = scheduler_model::worker_ids(workers);
    let affinity = leadership::best_leader_id(
        scheduler_model::leader_slots(scene.replaced(workers, shard), d),
        d,
        ids,
        scene.policy(shard),
        observed,
    );
    leadership::leaders_can_lead(affinity, d, ids, observed);
    if d.len() > 0 {
        replicas_are_on_workers(scene, workers, shard, 0);
        assert(d[0] == scene.wanted(workers, shard).replicas[0]);
    }
}

/// A cold start adopts what the data plane reports: replicas on candidates stay where they are,
/// in front and in order, as far as the replication factor has room for them.
pub proof fn cold_start_adopts_reported_replicas(
    scene: Scene,
    workers: Seq<WorkerModel>,
    shard: ShardId,
)
    requires
        scene.current(shard) is None,
        plan::kept(
            scheduler_model::observed_replicas(scene.nodes, shard),
            scheduler_model::slots(workers),
        ).len() <= scene.rf,
    ensures
        plan::kept(
            scheduler_model::observed_replicas(scene.nodes, shard),
            scheduler_model::slots(workers),
        ).is_prefix_of(scene.wanted(workers, shard).replicas),
{
    plan_laws::plan_keeps_healthy_replicas(
        scheduler_model::observed_replicas(scene.nodes, shard),
        scheduler_model::slots(workers),
        scene.rf as int,
    );
}

/// A reconciliation publishes nothing but assignments and removals, the removals last, and each
/// assignment names a shard below the shard count.
pub proof fn reconciliation_shape(s: StateModel, k: int)
    requires
        0 <= k < scheduler::reconciliation(s).len(),
    ensures
        ({
            let c = scheduler::reconciliation(s)[k];
            match c {
                CommandModel::AssignShard(a) => a.shard_id < s.placement.shard_count,
                CommandModel::SetScalePlan(p) => false,
                CommandModel::ForgetNode(n) => true,
            }
        }),
{
    let nodes = crate::membership::listing(s.nodes);
    let listed = crate::placement::assignment_listing(s.placement.assignments);
    let scene = scheduler_model::scene(
        nodes,
        s.placement.assignments,
        s.placement.policies,
        s.plan,
    );
    let workers = scheduler_model::first_workers(nodes, listed, s.plan);
    let a = scene.assigns(workers, s.placement.shard_count as nat);
    let f = scheduler_model::forgets(nodes);
    assigns_shape(scene, workers, s.placement.shard_count as nat);
    forgets_shape(nodes);
    assert(scheduler::reconciliation(s) == a + f);
    if k < a.len() {
        assert((a + f)[k] == a[k]);
    } else {
        assert((a + f)[k] == f[k - a.len()]);
    }
}

/// Whether a command assigns a shard below `n`.
spec fn assigns_below(c: CommandModel, n: nat) -> bool {
    match c {
        CommandModel::AssignShard(a) => a.shard_id < n,
        _ => false,
    }
}

proof fn assigns_shape(scene: Scene, workers: Seq<WorkerModel>, n: nat)
    requires
        n <= u32::MAX,
    ensures
        forall|k: int|
            0 <= k < scene.assigns(workers, n).len() ==> assigns_below(
                #[trigger] scene.assigns(workers, n)[k],
                n,
            ),
    decreases n,
{
    if n > 0 {
        assigns_shape(scene, workers, (n - 1) as nat);
        let before = scene.assigns(workers, (n - 1) as nat);
        let now = scene.assigns(workers, n);
        assert forall|k: int| 0 <= k < now.len() implies assigns_below(#[trigger] now[k], n) by {
            if k < before.len() {
                assert(now[k] == before[k]);
            }
        }
    }
}

/// Whether a command removes a draining node that reports hosting nothing.
pub open spec fn removes_evacuated(c: CommandModel, nodes: Seq<NodeModel>) -> bool {
    exists|i: int|
        0 <= i < nodes.len() && c == CommandModel::ForgetNode((#[trigger] nodes[i]).node_id)
            && nodes[i].health == NodeHealth::Draining && nodes[i].hosted_shards.len() == 0
}

proof fn forgets_shape(nodes: Seq<NodeModel>)
    ensures
        forall|k: int|
            0 <= k < scheduler_model::forgets(nodes).len() ==> removes_evacuated(
                #[trigger] scheduler_model::forgets(nodes)[k],
                nodes,
            ),
    decreases nodes.len(),
{
    if nodes.len() > 0 {
        let rest = nodes.drop_last();
        forgets_shape(rest);
        let before = scheduler_model::forgets(rest);
        let now = scheduler_model::forgets(nodes);
        assert forall|k: int| 0 <= k < now.len() implies removes_evacuated(
            #[trigger] now[k],
            nodes,
        ) by {
            if k < before.len() {
                assert(now[k] == before[k]);
                assert(removes_evacuated(before[k], rest));
                let i = choose|i: int|
                    0 <= i < rest.len() && before[k] == CommandModel::ForgetNode(
                        (#[trigger] rest[i]).node_id,
                    ) && rest[i].health == NodeHealth::Draining && rest[i].hosted_shards.len() == 0;
                assert(nodes[i] == rest[i]);
            } else {
                assert(now[k] == CommandModel::ForgetNode(nodes[nodes.len() - 1].node_id));
            }
        }
    }
}

/// Only a draining node that reports hosting nothing is ever removed.
pub proof fn only_evacuated_nodes_are_removed(nodes: Seq<NodeModel>, k: int)
    requires
        0 <= k < scheduler_model::forgets(nodes).len(),
    ensures
        removes_evacuated(scheduler_model::forgets(nodes)[k], nodes),
{
    forgets_shape(nodes);
}

} // verus!
