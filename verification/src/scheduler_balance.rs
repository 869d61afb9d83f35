//! How evenly a reconciliation shares replicas and leadership out.

use crate::cluster::{CommandModel, StateModel};
use crate::leadership;
use crate::membership;
use crate::model::{AssignmentModel, NodeHealth, NodeModel, PolicyModel, ShardId};
use crate::placement;
use crate::plan;
use crate::plan_laws;
use crate::plan_meaning;
use crate::scheduler;
use crate::scheduler_counts;
use crate::scheduler_laws;
use crate::scheduler_model;
use crate::scheduler_model::{Scene, WorkerModel};
use crate::scheduler_stability;
use crate::text;
use vstd::prelude::*;

verus! {

/// The shards a worker leads besides a shard.
pub open spec fn leads_besides(scene: Scene, w: WorkerModel, shard: ShardId) -> int {
    if scene.assignments.dom().contains(shard) && scene.assignments[shard].preferred_leader == Some(
        w.node.node_id,
    ) && w.leads > 0 {
        w.leads - 1
    } else {
        w.leads as int
    }
}

/// Whether a node's region is the one that a shard's policy asks for, ASCII case aside.
pub open spec fn node_at_home(scene: Scene, shard: ShardId, n: NodeModel) -> bool {
    scene.policies.dom().contains(shard) && (scene.policies[shard].home_region matches Some(w)
        && text::lowered(w) == text::lowered(n.region))
}

/// Whether a node's cloud is the one that a shard's policy asks for, ASCII case aside.
pub open spec fn node_in_cloud(scene: Scene, shard: ShardId, n: NodeModel) -> bool {
    scene.policies.dom().contains(shard) && (scene.policies[shard].preferred_cloud_provider matches
        Some(w) && text::lowered(w) == text::lowered(n.cloud_provider))
}

/// Whether worker `k` is the right one to lead a shard: it holds a replica, and of all workers that
/// do, none is in the home region unless it is, none of the same standing there is in the
/// preferred cloud unless it is, none of the same standing in both leads fewer other shards, none
/// that leads as few is reported to lead the shard unless it is, and none that is like it in all
/// of this has a lower id.
pub open spec fn should_lead(
    scene: Scene,
    workers: Seq<WorkerModel>,
    shard: ShardId,
    k: int,
) -> bool {
    let replicas = scene.wanted(workers, shard).replicas;
    let reported = scheduler_model::observed_leader(scene.nodes, shard);
    let p = workers[k];
    &&& 0 <= k < workers.len()
    &&& replicas.contains(p.node.node_id)
    &&& forall|j: int|
        0 <= j < workers.len() && replicas.contains((#[trigger] workers[j]).node.node_id) ==> {
            let c = workers[j];
            let home = node_at_home(scene, shard, p.node) == node_at_home(scene, shard, c.node);
            let cloud = home && node_in_cloud(scene, shard, p.node) == node_in_cloud(
                scene,
                shard,
                c.node,
            );
            let load = cloud && leads_besides(scene, p, shard) == leads_besides(scene, c, shard);
            &&& node_at_home(scene, shard, c.node) ==> node_at_home(scene, shard, p.node)
            &&& home && node_in_cloud(scene, shard, c.node) ==> node_in_cloud(scene, shard, p.node)
            &&& cloud ==> leads_besides(scene, p, shard) <= leads_besides(scene, c, shard)
            &&& load && reported == Some(c.node.node_id) ==> reported == Some(p.node.node_id)
            &&& load && ((reported == Some(p.node.node_id)) == (reported == Some(c.node.node_id)))
                ==> p.node.node_id == c.node.node_id || text::text_lt(
                p.node.node_id,
                c.node.node_id,
            )
        }
}

proof fn slot_of_worker(scene: Scene, workers: Seq<WorkerModel>, shard: ShardId, j: int)
    requires
        scheduler_stability::distinct_workers(workers),
        0 <= j < workers.len(),
    ensures
        ({
            let s = scheduler_model::leader_slot(
                scene.replaced(workers, shard),
                workers[j].node.node_id,
            );
            &&& s.node_id == workers[j].node.node_id
            &&& s.region == workers[j].node.region
            &&& s.cloud_provider == workers[j].node.cloud_provider
            &&& s.leader_load == leads_besides(scene, workers[j], shard)
        }),
{
    let current = scene.current_replicas(shard);
    let u = scheduler_model::unloaded(workers, current);
    let l = scheduler_model::loaded(u, scene.desired(workers, shard));
    scheduler_stability::loads_keep_nodes(workers, current);
    scheduler_stability::loads_keep_nodes(u, scene.desired(workers, shard));
    let r = scene.replaced(workers, shard);
    assert(scheduler_stability::distinct_workers(r)) by {
        assert forall|a: int, b: int| 0 <= a < b < r.len() implies (
        #[trigger] r[a]).node.node_id != (#[trigger] r[b]).node.node_id by {
            assert(l[a].node == u[a].node && u[a].node == workers[a].node);
            assert(l[b].node == u[b].node && u[b].node == workers[b].node);
            assert(workers[a].node.node_id != workers[b].node.node_id);
        }
    }
    assert(l[j].node == u[j].node && u[j].node == workers[j].node);
    scheduler_stability::leader_slot_shape(r, j);
}

/// The leader that a shard should have is the right one, and there is one wherever the shard has a
/// replica.
pub proof fn the_right_worker_leads(scene: Scene, workers: Seq<WorkerModel>, shard: ShardId)
    requires
        scheduler_stability::distinct_workers(workers),
        scene.wanted(workers, shard).replicas.len() > 0,
    ensures
        exists|k: int|
            #![trigger workers[k]]
            should_lead(scene, workers, shard, k) && scene.wanted(workers, shard).preferred_leader
                == Some(workers[k].node.node_id),
{
    let d = scene.desired(workers, shard);
    let slots = scheduler_model::leader_slots(scene.replaced(workers, shard), d);
    let ids = scheduler_model::worker_ids(workers);
    let policy = scene.policy(shard);
    let reported = scheduler_model::observed_leader(scene.nodes, shard);
    let affinity = leadership::best_leader_id(slots, d, ids, policy, reported);
    assert forall|i: int| 0 <= i < d.len() implies ids.contains(#[trigger] d[i]) by {
        scheduler_laws::replicas_are_on_workers(scene, workers, shard, i);
        assert(d[i] == scene.wanted(workers, shard).replicas[i]);
    }
    leadership::policy_leader_is_right(slots, d, ids, policy, reported);
    leadership::leader_is_the_right_choice(affinity, d, ids, reported);
    scheduler_stability::worker_ids_shape(workers, d[0]);
    assert(ids.contains(d[0]));
    let z = choose|z: int| 0 <= z < workers.len() && (#[trigger] workers[z]).node.node_id == d[0];
    slot_of_worker(scene, workers, shard, z);
    assert(d.contains(d[0]));
    assert(slots[0].node_id == d[0]);
    assert(affinity is Some);
    let id = affinity->0;
    let x = choose|x: int|
        #![trigger slots[x]]
        leadership::is_right_pick(slots, d, ids, policy, reported, x) && slots[x].node_id == id;
    assert(ids.contains(d[x]));
    scheduler_stability::worker_ids_shape(workers, d[x]);
    let k = choose|k: int| 0 <= k < workers.len() && (#[trigger] workers[k]).node.node_id == d[x];
    slot_of_worker(scene, workers, shard, k);
    assert(workers[k].node.node_id == id);
    assert(d.contains(d[x]));
    assert forall|j: int|
        0 <= j < workers.len() && d.contains((#[trigger] workers[j]).node.node_id) implies {
        let p = workers[k];
        let c = workers[j];
        let home = node_at_home(scene, shard, p.node) == node_at_home(scene, shard, c.node);
        let cloud = home && node_in_cloud(scene, shard, p.node) == node_in_cloud(
            scene,
            shard,
            c.node,
        );
        let load = cloud && leads_besides(scene, p, shard) == leads_besides(scene, c, shard);
        &&& node_at_home(scene, shard, c.node) ==> node_at_home(scene, shard, p.node)
        &&& home && node_in_cloud(scene, shard, c.node) ==> node_in_cloud(scene, shard, p.node)
        &&& cloud ==> leads_besides(scene, p, shard) <= leads_besides(scene, c, shard)
        &&& load && reported == Some(c.node.node_id) ==> reported == Some(p.node.node_id)
        &&& load && ((reported == Some(p.node.node_id)) == (reported == Some(c.node.node_id)))
            ==> p.node.node_id == c.node.node_id || text::text_lt(p.node.node_id, c.node.node_id)
    } by {
        let y = choose|y: int| 0 <= y < d.len() && d[y] == workers[j].node.node_id;
        slot_of_worker(scene, workers, shard, j);
        scheduler_stability::worker_ids_shape(workers, d[y]);
        assert(slots[y].node_id == d[y]);
        assert(d.contains(slots[y].node_id) && ids.contains(slots[y].node_id));
        let (p, c) = (slots[x], slots[y]);
        assert(leadership::at_home(policy, p) == node_at_home(scene, shard, workers[k].node));
        assert(leadership::at_home(policy, c) == node_at_home(scene, shard, workers[j].node));
        assert(leadership::in_cloud(policy, p) == node_in_cloud(scene, shard, workers[k].node));
        assert(leadership::in_cloud(policy, c) == node_in_cloud(scene, shard, workers[j].node));
    }
    assert(should_lead(scene, workers, shard, k));
}

/// Whether a state is that of a new cluster: nothing is placed, no policy is set, and no healthy
/// node reports to host or lead anything.
pub open spec fn is_new(s: StateModel) -> bool {
    &&& scheduler_stability::is_registry(s.nodes)
    &&& s.placement.assignments == Map::<ShardId, AssignmentModel>::empty()
    &&& s.placement.policies == Map::<ShardId, PolicyModel>::empty()
    &&& forall|k: Seq<char>| #[trigger]
        s.nodes.dom().contains(k) && s.nodes[k].health == NodeHealth::Healthy
            ==> s.nodes[k].hosted_shards.len() == 0 && s.nodes[k].leading_shards.len() == 0
}

/// How many of some commands make a node the leader of a shard.
pub open spec fn leads_given(commands: Seq<CommandModel>, id: Seq<char>) -> nat {
    commands.filter(
        |c: CommandModel|
            c matches CommandModel::AssignShard(a) && a.preferred_leader == Some(id),
    ).len()
}

/// How many of some commands place a shard on a node.
pub open spec fn replicas_given(commands: Seq<CommandModel>, id: Seq<char>) -> nat {
    commands.filter(
        |c: CommandModel| c matches CommandModel::AssignShard(a) && a.replicas.contains(id),
    ).len()
}

proof fn nothing_is_reported(nodes: Seq<NodeModel>, shard: ShardId)
    requires
        forall|i: int|
            0 <= i < nodes.len() && (#[trigger] nodes[i]).health == NodeHealth::Healthy
                ==> nodes[i].hosted_shards.len() == 0 && nodes[i].leading_shards.len() == 0,
    ensures
        scheduler_model::observed_leader(nodes, shard) is None,
        scheduler_model::observed_replicas(nodes, shard) == Seq::<Seq<char>>::empty(),
    decreases nodes.len(),
{
    if nodes.len() > 0 {
        let rest = nodes.drop_last();
        assert forall|i: int|
            0 <= i < rest.len() && (#[trigger] rest[i]).health == NodeHealth::Healthy implies rest[i].hosted_shards.len()
            == 0 && rest[i].leading_shards.len() == 0 by {
            assert(rest[i] == nodes[i]);
        }
        nothing_is_reported(rest, shard);
        let last = nodes[nodes.len() - 1];
        assert(last.health == NodeHealth::Healthy ==> last.hosted_shards.len() == 0
            && last.leading_shards.len() == 0);
    }
}

/// What is known of a new cluster's first pass.
spec fn starts_fresh(scene: Scene, first: Seq<WorkerModel>) -> bool {
    &&& scheduler_stability::distinct_workers(first)
    &&& plan_laws::listed_once(scheduler_model::slots(first))
    &&& scene.assignments == Map::<ShardId, AssignmentModel>::empty()
    &&& scene.policies == Map::<ShardId, PolicyModel>::empty()
    &&& scene.rf >= 1
    &&& forall|i: int| 0 <= i < first.len() ==> (#[trigger] first[i]).load == 0 && first[i].leads
        == 0
    &&& forall|k: ShardId| #[trigger]
        scene.current_replicas(k) == Seq::<Seq<char>>::empty()
    &&& forall|k: ShardId| #[trigger]
        scheduler_model::observed_leader(scene.nodes, k) is None
}

proof fn new_clusters_start_fresh(s: StateModel)
    requires
        is_new(s),
    ensures
        starts_fresh(scheduler_stability::scene_of(s), scheduler_stability::workers_of(s)),
{
    let scene = scheduler_stability::scene_of(s);
    let first = scheduler_stability::workers_of(s);
    let nodes = membership::listing(s.nodes);
    let listed = placement::assignment_listing(s.placement.assignments);
    scheduler_stability::registries_have_listings(s.nodes);
    scheduler_stability::workers_are_distinct(s);
    let none = Seq::<AssignmentModel>::empty();
    assert(placement::lists_assignments(s.placement.assignments, none));
    placement::assignment_listing_is_unique(s.placement.assignments, none, listed);
    scheduler_counts::healthy_nodes_are_counted(nodes, listed);
    scheduler_stability::healthy_are_distinct(s);
    scheduler_counts::as_many_work_as_are_wanted(nodes, listed, s.plan);
    let all = scheduler_model::healthy_workers(nodes, listed);
    assert forall|i: int| 0 <= i < first.len() implies (#[trigger] first[i]).load == 0
        && first[i].leads == 0 by {
        assert(all.contains(first[i]));
        let x = choose|x: int| 0 <= x < all.len() && all[x] == first[i];
        nothing_is_counted(all[x].node.node_id);
    }
    assert forall|k: ShardId| #[trigger] scene.current_replicas(k) == Seq::<Seq<char>>::empty() by {
        reports_of_new(s, k);
    }
    assert forall|k: ShardId| #[trigger] scheduler_model::observed_leader(scene.nodes, k) is None by {
        reports_of_new(s, k);
    }
}

proof fn reports_of_new(s: StateModel, k: ShardId)
    requires
        is_new(s),
    ensures
        scheduler_model::observed_leader(membership::listing(s.nodes), k) is None,
        scheduler_model::observed_replicas(membership::listing(s.nodes), k) == Seq::<
            Seq<char>,
        >::empty(),
{
    let nodes = membership::listing(s.nodes);
    scheduler_stability::registries_have_listings(s.nodes);
    assert forall|i: int|
        0 <= i < nodes.len() && (#[trigger] nodes[i]).health == NodeHealth::Healthy implies nodes[i].hosted_shards.len()
        == 0 && nodes[i].leading_shards.len() == 0 by {
        assert(s.nodes.dom().contains(nodes[i].node_id));
    }
    nothing_is_reported(nodes, k);
}

proof fn nothing_is_counted(id: Seq<char>)
    ensures
        scheduler_counts::replicas_on(Seq::empty(), id) == 0,
        scheduler_counts::led_by(Seq::empty(), id) == 0,
{
    reveal(Seq::filter);
    let none = Seq::<AssignmentModel>::empty();
    assert(none.map_values(|a: AssignmentModel| a.replicas) =~= Seq::empty());
    assert(Seq::<Seq<Seq<char>>>::empty().flatten() =~= Seq::empty());
}

/// What a first pass has given away so far, and how it is counted.
spec fn given_so_far(scene: Scene, first: Seq<WorkerModel>, n: nat) -> bool {
    let at = scene.workers_at(first, n);
    let commands = scene.assigns(first, n);
    &&& at.len() == first.len()
    &&& commands.len() <= n
    &&& forall|i: int|
        0 <= i < first.len() ==> {
            let id = (#[trigger] at[i]).node.node_id;
            &&& at[i].node == first[i].node
            &&& at[i].load == replicas_given(commands, id) <= n
            &&& at[i].leads == leads_given(commands, id) <= n
        }
}

proof fn times_in_a_set(ids: Seq<Seq<char>>, id: Seq<char>)
    requires
        ids.no_duplicates(),
    ensures
        scheduler_counts::naming(ids, id) == if ids.contains(id) {
            1int
        } else {
            0
        },
    decreases ids.len(),
{
    reveal(Seq::filter);
    if ids.len() > 0 {
        let rest = ids.drop_last();
        times_in_a_set(rest, id);
        if rest.contains(id) {
            let i = choose|i: int| 0 <= i < rest.len() && rest[i] == id;
            assert(ids[i] == id);
        }
        if ids.contains(id) && ids.last() != id {
            let i = choose|i: int| 0 <= i < ids.len() && ids[i] == id;
            assert(rest[i] == id);
        }
        if ids.last() == id {
            assert(ids[ids.len() - 1] == id);
        }
    }
}

/// What one shard of a first pass gets, and how it is counted.
proof fn next_is_given(scene: Scene, first: Seq<WorkerModel>, n: nat)
    requires
        starts_fresh(scene, first),
        given_so_far(scene, first, n),
        n < u32::MAX,
        first.len() > 0,
    ensures
        ({
            let at = scene.workers_at(first, n);
            let shard = n as ShardId;
            let p = scene.planned(at, shard);
            &&& given_so_far(scene, first, n + 1)
            &&& scene.wanted(at, shard).replicas == p
            &&& p.len() > 0
            &&& p.no_duplicates()
            &&& plan_meaning::right_plan(
                p,
                Seq::empty(),
                scheduler_model::slots(at),
                scene.rf as int,
            )
            &&& plan_laws::listed_once(scheduler_model::slots(at))
            &&& scheduler_stability::distinct_workers(at)
            &&& scene.assigns(first, n + 1) == scene.assigns(first, n).push(
                CommandModel::AssignShard(scene.wanted(at, shard)),
            )
        }),
{
    reveal(Seq::filter);
    let at = scene.workers_at(first, n);
    let shard = n as ShardId;
    let slots = scheduler_model::slots(at);
    let p = scene.planned(at, shard);
    let none = Seq::<Seq<char>>::empty();
    assert(scene.current_replicas(shard) == none);
    assert(plan_laws::listed_once(slots)) by {
        let s0 = scheduler_model::slots(first);
        assert forall|i: int, j: int| 0 <= i < j < slots.len() implies (
        #[trigger] slots[i]).node_id != (#[trigger] slots[j]).node_id by {
            assert(at[i].node == first[i].node && at[j].node == first[j].node);
            assert(s0[i].node_id != s0[j].node_id);
        }
    }
    assert(scheduler_stability::distinct_workers(at)) by {
        assert forall|i: int, j: int| 0 <= i < j < at.len() implies (
        #[trigger] at[i]).node.node_id != (#[trigger] at[j]).node.node_id by {
            assert(at[i].node == first[i].node && at[j].node == first[j].node);
            assert(first[i].node.node_id != first[j].node.node_id);
        }
    }
    plan_meaning::plan_is_right(none, slots, scene.rf as int);
    assert(plan_meaning::staying(none, slots) =~= none);
    plan_laws::plan_names_nodes_once(none, slots, scene.rf as int);
    assert(p.len() > 0) by {
        if p.len() == 0 {
            assert(p.contains(slots[0].node_id));
        }
    }
    assert(!scene.held(at, shard));
    let w = scene.wanted(at, shard);
    assert(w.replicas == p);
    assert(scene.published(at, shard));
    let before = scene.assigns(first, n);
    let now = scene.assigns(first, n + 1);
    let c = CommandModel::AssignShard(w);
    assert(now == before.push(c));
    assert(now.drop_last() =~= before);
    let next = scene.workers_at(first, n + 1);
    assert(next == scene.workers_after(at, shard));
    assert forall|i: int| 0 <= i < first.len() implies {
        let id = (#[trigger] next[i]).node.node_id;
        &&& next[i].node == first[i].node
        &&& next[i].load == replicas_given(now, id) <= n + 1
        &&& next[i].leads == leads_given(now, id) <= n + 1
    } by {
        let id = at[i].node.node_id;
        scheduler_counts::counts_follow_decisions(scene, at, shard, i);
        times_in_a_set(none, id);
        times_in_a_set(p, id);
        assert(next[i].node == at[i].node);
        let holds = |x: CommandModel|
            x matches CommandModel::AssignShard(a) && a.replicas.contains(id);
        let leads = |x: CommandModel|
            x matches CommandModel::AssignShard(a) && a.preferred_leader == Some(id);
        assert(now.filter(holds) == if holds(c) {
            before.filter(holds).push(c)
        } else {
            before.filter(holds)
        });
        assert(now.filter(leads) == if leads(c) {
            before.filter(leads).push(c)
        } else {
            before.filter(leads)
        });
        assert(at[i].load == replicas_given(before, id) <= n);
    }
    scheduler_counts::counts_follow_decisions(scene, at, shard, 0);
}

proof fn given_from_the_start(scene: Scene, first: Seq<WorkerModel>)
    requires
        starts_fresh(scene, first),
    ensures
        given_so_far(scene, first, 0),
{
    reveal(Seq::filter);
    let at = scene.workers_at(first, 0);
    assert(scene.assigns(first, 0) =~= Seq::<CommandModel>::empty());
    assert forall|i: int| 0 <= i < first.len() implies {
        let id = (#[trigger] at[i]).node.node_id;
        &&& at[i].node == first[i].node
        &&& at[i].load == replicas_given(scene.assigns(first, 0), id) <= 0
        &&& at[i].leads == leads_given(scene.assigns(first, 0), id) <= 0
    } by {
        assert(first[i].load == 0);
    }
}

/// Whether every two workers lead as many shards, give or take one.
spec fn leads_evenly(w: Seq<WorkerModel>) -> bool {
    forall|i: int, j: int|
        0 <= i < w.len() && 0 <= j < w.len() ==> (#[trigger] w[i]).leads <= (#[trigger] w[j]).leads
            + 1
}

/// Whether every two workers hold as many replicas, give or take one.
spec fn loaded_evenly(w: Seq<WorkerModel>) -> bool {
    forall|i: int, j: int|
        0 <= i < w.len() && 0 <= j < w.len() ==> (#[trigger] w[i]).load <= (#[trigger] w[j]).load
            + 1
}

proof fn everyone_is_placed(scene: Scene, at: Seq<WorkerModel>, p: Seq<Seq<char>>, j: int)
    requires
        plan_laws::listed_once(scheduler_model::slots(at)),
        p == plan::planned(Seq::empty(), scheduler_model::slots(at), scene.rf as int),
        p.no_duplicates(),
        plan_meaning::right_plan(p, Seq::empty(), scheduler_model::slots(at), scene.rf as int),
        at.len() <= scene.rf,
        0 <= j < at.len(),
    ensures
        p.contains(at[j].node.node_id),
{
    reveal(Seq::filter);
    let slots = scheduler_model::slots(at);
    let ids = slots.map_values(|s: plan::SlotModel| s.node_id);
    assert(plan_meaning::staying(Seq::empty(), slots) =~= Seq::empty());
    assert(slots[j].node_id == at[j].node.node_id);
    if p.len() >= at.len() {
        assert(ids.no_duplicates()) by {
            assert forall|a: int, b: int|
                0 <= a < ids.len() && 0 <= b < ids.len() && a != b implies ids[a] != ids[b] by {
                if a < b {
                    assert(slots[a].node_id != slots[b].node_id);
                } else {
                    assert(slots[b].node_id != slots[a].node_id);
                }
            }
        }
        ids.unique_seq_to_set();
        p.unique_seq_to_set();
        assert forall|x: Seq<char>| p.to_set().contains(x) implies ids.to_set().contains(x) by {
            let k = choose|k: int| 0 <= k < p.len() && p[k] == x;
            plan_laws::plan_names_candidates(Seq::empty(), slots, scene.rf as int, k);
            plan_laws::slot_of_is_listed(slots, x);
            let i = choose|i: int| 0 <= i < slots.len() && (#[trigger] slots[i]).node_id == x;
            assert(ids[i] == x);
        }
        vstd::set_lib::lemma_len_subset(p.to_set(), ids.to_set());
        vstd::set_lib::lemma_subset_equality(p.to_set(), ids.to_set());
        assert(ids[j] == at[j].node.node_id);
        assert(ids.to_set().contains(ids[j]));
    }
}

proof fn leads_stay_even(scene: Scene, first: Seq<WorkerModel>, n: nat)
    requires
        starts_fresh(scene, first),
        n <= u32::MAX,
        0 < first.len() <= scene.rf,
    ensures
        given_so_far(scene, first, n),
        leads_evenly(scene.workers_at(first, n)),
    decreases n,
{
    if n == 0 {
        given_from_the_start(scene, first);
        let at = scene.workers_at(first, 0);
        assert forall|i: int, j: int| 0 <= i < at.len() && 0 <= j < at.len() implies (
        #[trigger] at[i]).leads <= (#[trigger] at[j]).leads + 1 by {
            assert(first[i].leads == 0 && first[j].leads == 0);
        }
    } else {
        let m = (n - 1) as nat;
        leads_stay_even(scene, first, m);
        next_is_given(scene, first, m);
        let at = scene.workers_at(first, m);
        let shard = m as ShardId;
        let next = scene.workers_at(first, n);
        let p = scene.planned(at, shard);
        the_right_worker_leads(scene, at, shard);
        let k = choose|k: int|
            #![trigger at[k]]
            should_lead(scene, at, shard, k) && scene.wanted(at, shard).preferred_leader == Some(
                at[k].node.node_id,
            );
        assert forall|i: int, j: int| 0 <= i < next.len() && 0 <= j < next.len() implies (
        #[trigger] next[i]).leads <= (#[trigger] next[j]).leads + 1 by {
            scheduler_counts::counts_follow_decisions(scene, at, shard, i);
            scheduler_counts::counts_follow_decisions(scene, at, shard, j);
            everyone_is_placed(scene, at, p, i);
            everyone_is_placed(scene, at, p, j);
            assert(at[i].leads <= at[j].leads + 1);
            assert(leads_besides(scene, at[k], shard) <= leads_besides(scene, at[j], shard));
            assert(leads_besides(scene, at[k], shard) <= leads_besides(scene, at[i], shard));
            if i != k {
                if i < k {
                    assert(at[i].node.node_id != at[k].node.node_id);
                } else {
                    assert(at[k].node.node_id != at[i].node.node_id);
                }
            }
            if j != k {
                if j < k {
                    assert(at[j].node.node_id != at[k].node.node_id);
                } else {
                    assert(at[k].node.node_id != at[j].node.node_id);
                }
            }
            assert(at[i].leads <= m && at[j].leads <= m && at[k].leads <= m);
        }
    }
}

proof fn only_assigns_count(a: Seq<CommandModel>, f: Seq<CommandModel>, id: Seq<char>)
    requires
        forall|k: int| 0 <= k < f.len() ==> #[trigger] f[k] is ForgetNode,
    ensures
        leads_given(a + f, id) == leads_given(a, id),
        replicas_given(a + f, id) == replicas_given(a, id),
    decreases f.len(),
{
    reveal(Seq::filter);
    if f.len() == 0 {
        assert(a + f =~= a);
    } else {
        let rest = f.drop_last();
        assert forall|k: int| 0 <= k < rest.len() implies #[trigger] rest[k] is ForgetNode by {
            assert(rest[k] == f[k]);
        }
        only_assigns_count(a, rest, id);
        assert((a + f).drop_last() =~= a + rest);
        assert(f[f.len() - 1] is ForgetNode);
    }
}

/// Leadership of a new cluster is shared out evenly: where every shard has a replica on every
/// worker, the numbers of shards that any two workers are given to lead differ by at most one.
pub proof fn new_clusters_are_led_evenly(s: StateModel, i: int, j: int)
    requires
        is_new(s),
        0 <= i < scheduler_stability::workers_of(s).len(),
        0 <= j < scheduler_stability::workers_of(s).len(),
        scheduler_stability::workers_of(s).len() <= s.plan.replication_factor,
    ensures
        ({
            let w = scheduler_stability::workers_of(s);
            let commands = scheduler::reconciliation(s);
            leads_given(commands, w[i].node.node_id) <= leads_given(commands, w[j].node.node_id) + 1
        }),
{
    let scene = scheduler_stability::scene_of(s);
    let first = scheduler_stability::workers_of(s);
    let n = s.placement.shard_count as nat;
    new_clusters_start_fresh(s);
    leads_stay_even(scene, first, n);
    let nodes = membership::listing(s.nodes);
    let f = scheduler_model::forgets(nodes);
    assert forall|k: int| 0 <= k < f.len() implies #[trigger] f[k] is ForgetNode by {
        scheduler_laws::only_evacuated_nodes_are_removed(nodes, k);
    }
    only_assigns_count(scene.assigns(first, n), f, first[i].node.node_id);
    only_assigns_count(scene.assigns(first, n), f, first[j].node.node_id);
    let at = scene.workers_at(first, n);
    assert(at[i].leads <= at[j].leads + 1);
    assert(at[i].node == first[i].node && at[j].node == first[j].node);
}

proof fn lighter_come_first(scene: Scene, at: Seq<WorkerModel>, p: Seq<Seq<char>>, i: int, j: int)
    requires
        plan_laws::listed_once(scheduler_model::slots(at)),
        plan_meaning::right_plan(p, Seq::empty(), scheduler_model::slots(at), scene.rf as int),
        forall|a: int, b: int|
            0 <= a < b < at.len() ==> (#[trigger] at[a]).node.failure_domain != (
            #[trigger] at[b]).node.failure_domain,
        0 <= i < at.len(),
        0 <= j < at.len(),
        p.contains(at[i].node.node_id),
        !p.contains(at[j].node.node_id),
    ensures
        at[i].load <= at[j].load,
{
    reveal(Seq::filter);
    let slots = scheduler_model::slots(at);
    assert(plan_meaning::staying(Seq::empty(), slots) =~= Seq::empty());
    let k = choose|k: int| 0 <= k < p.len() && p[k] == at[i].node.node_id;
    let before = p.take(k);
    assert(plan_meaning::is_filled_at(slots, p, k));
    let x = choose|x: int|
        plan_meaning::is_right_fill(slots, before, x) && (#[trigger] slots[x]).node_id == p[k];
    assert(slots[i].node_id == p[k]);
    if x < i {
        assert(slots[x].node_id != slots[i].node_id);
    } else if i < x {
        assert(slots[i].node_id != slots[x].node_id);
    }
    assert(!before.contains(slots[j].node_id)) by {
        if before.contains(slots[j].node_id) {
            let y = choose|y: int| 0 <= y < before.len() && before[y] == slots[j].node_id;
            assert(p[y] == slots[j].node_id);
        }
    }
    unchosen_are_fresh(at, before, i);
    unchosen_are_fresh(at, before, j);
}

proof fn unchosen_are_fresh(at: Seq<WorkerModel>, chosen: Seq<Seq<char>>, i: int)
    requires
        forall|a: int, b: int|
            0 <= a < b < at.len() ==> (#[trigger] at[a]).node.failure_domain != (
            #[trigger] at[b]).node.failure_domain,
        0 <= i < at.len(),
        !chosen.contains(at[i].node.node_id),
    ensures
        plan_meaning::is_fresh(scheduler_model::slots(at), chosen, at[i].node.failure_domain),
{
    let slots = scheduler_model::slots(at);
    assert forall|y: int| 0 <= y < chosen.len() implies !plan_meaning::stands_in(
        slots,
        #[trigger] chosen[y],
        at[i].node.failure_domain,
    ) by {
        if plan_meaning::stands_in(slots, chosen[y], at[i].node.failure_domain) {
            let z = choose|z: int|
                0 <= z < slots.len() && (#[trigger] slots[z]).node_id == chosen[y]
                    && slots[z].domain == at[i].node.failure_domain;
            if z < i {
                assert(at[z].node.failure_domain != at[i].node.failure_domain);
            } else if i < z {
                assert(at[i].node.failure_domain != at[z].node.failure_domain);
            } else {
                assert(chosen.contains(chosen[y]));
            }
        }
    }
}

proof fn loads_stay_even(scene: Scene, first: Seq<WorkerModel>, n: nat)
    requires
        starts_fresh(scene, first),
        n <= u32::MAX,
        0 < first.len(),
        forall|a: int, b: int|
            0 <= a < b < first.len() ==> (#[trigger] first[a]).node.failure_domain != (
            #[trigger] first[b]).node.failure_domain,
    ensures
        given_so_far(scene, first, n),
        loaded_evenly(scene.workers_at(first, n)),
    decreases n,
{
    if n == 0 {
        given_from_the_start(scene, first);
        let at = scene.workers_at(first, 0);
        assert forall|i: int, j: int| 0 <= i < at.len() && 0 <= j < at.len() implies (
        #[trigger] at[i]).load <= (#[trigger] at[j]).load + 1 by {
            assert(first[i].load == 0 && first[j].load == 0);
        }
    } else {
        let m = (n - 1) as nat;
        loads_stay_even(scene, first, m);
        next_is_given(scene, first, m);
        let at = scene.workers_at(first, m);
        let shard = m as ShardId;
        let next = scene.workers_at(first, n);
        let p = scene.planned(at, shard);
        assert forall|a: int, b: int| 0 <= a < b < at.len() implies (
        #[trigger] at[a]).node.failure_domain != (#[trigger] at[b]).node.failure_domain by {
            assert(at[a].node == first[a].node && at[b].node == first[b].node);
            assert(first[a].node.failure_domain != first[b].node.failure_domain);
        }
        assert forall|i: int, j: int| 0 <= i < next.len() && 0 <= j < next.len() implies (
        #[trigger] next[i]).load <= (#[trigger] next[j]).load + 1 by {
            scheduler_counts::counts_follow_decisions(scene, at, shard, i);
            scheduler_counts::counts_follow_decisions(scene, at, shard, j);
            times_in_a_set(p, at[i].node.node_id);
            times_in_a_set(p, at[j].node.node_id);
            times_in_a_set(Seq::empty(), at[i].node.node_id);
            times_in_a_set(Seq::empty(), at[j].node.node_id);
            assert(scene.current_replicas(shard) == Seq::<Seq<char>>::empty());
            assert(at[i].load <= at[j].load + 1);
            assert(at[i].load <= m && at[j].load <= m);
            if p.contains(at[i].node.node_id) && !p.contains(at[j].node.node_id) {
                lighter_come_first(scene, at, p, i, j);
            }
        }
    }
}

/// Replicas of a new cluster are shared out evenly: where every worker is in a failure domain of its
/// own, the numbers of shards that any two workers are given differ by at most one.
pub proof fn new_clusters_are_loaded_evenly(s: StateModel, i: int, j: int)
    requires
        is_new(s),
        0 <= i < scheduler_stability::workers_of(s).len(),
        0 <= j < scheduler_stability::workers_of(s).len(),
        forall|a: int, b: int|
            0 <= a < b < scheduler_stability::workers_of(s).len() ==> (
            #[trigger] scheduler_stability::workers_of(s)[a]).node.failure_domain != (
            #[trigger] scheduler_stability::workers_of(s)[b]).node.failure_domain,
    ensures
        ({
            let w = scheduler_stability::workers_of(s);
            let commands = scheduler::reconciliation(s);
            replicas_given(commands, w[i].node.node_id) <= replicas_given(
                commands,
                w[j].node.node_id,
            ) + 1
        }),
{
    let scene = scheduler_stability::scene_of(s);
    let first = scheduler_stability::workers_of(s);
    let n = s.placement.shard_count as nat;
    new_clusters_start_fresh(s);
    loads_stay_even(scene, first, n);
    let nodes = membership::listing(s.nodes);
    let f = scheduler_model::forgets(nodes);
    assert forall|k: int| 0 <= k < f.len() implies #[trigger] f[k] is ForgetNode by {
        scheduler_laws::only_evacuated_nodes_are_removed(nodes, k);
    }
    only_assigns_count(scene.assigns(first, n), f, first[i].node.node_id);
    only_assigns_count(scene.assigns(first, n), f, first[j].node.node_id);
    let at = scene.workers_at(first, n);
    assert(at[i].load <= at[j].load + 1);
    assert(at[i].node == first[i].node && at[j].node == first[j].node);
}

} // verus!
