//! What the reconciler counts: the replicas each worker holds and the shards it leads, when a pass
//! begins and from shard to shard.

use crate::model::{AssignmentModel, NodeHealth, NodeModel, ScalePlan, ShardId};
use crate::scheduler_model;
use crate::scheduler_model::{Scene, WorkerModel};
use crate::scheduler_stability;
use crate::text;
use vstd::prelude::*;

verus! {

/// How often a list names a node.
pub open spec fn naming(ids: Seq<Seq<char>>, id: Seq<char>) -> nat {
    ids.filter(|x: Seq<char>| x == id).len()
}

/// How many of the replicas of some assignments are on a node.
pub open spec fn replicas_on(list: Seq<AssignmentModel>, id: Seq<char>) -> nat {
    naming(list.map_values(|a: AssignmentModel| a.replicas).flatten(), id)
}

/// How many of some assignments name a node as their leader.
pub open spec fn led_by(list: Seq<AssignmentModel>, id: Seq<char>) -> nat {
    list.filter(|a: AssignmentModel| a.preferred_leader == Some(id)).len()
}

/// Whether a count is the number it stands for, or the largest there is.
pub open spec fn stands_for(count: u32, n: nat) -> bool {
    if n <= u32::MAX {
        count == n
    } else {
        count == u32::MAX
    }
}

proof fn named_is_filtered(ids: Seq<Seq<char>>, id: Seq<char>)
    ensures
        scheduler_model::times_named(ids, id) == naming(ids, id),
    decreases ids.len(),
{
    reveal(Seq::filter);
    if ids.len() > 0 {
        named_is_filtered(ids.drop_last(), id);
    }
}

proof fn held_is_counted(list: Seq<AssignmentModel>, id: Seq<char>)
    ensures
        scheduler_model::replicas_held(list, id) == replicas_on(list, id),
        scheduler_model::shards_led(list, id) == led_by(list, id),
    decreases list.len(),
{
    reveal(Seq::filter);
    let sets = list.map_values(|a: AssignmentModel| a.replicas);
    sets.lemma_flatten_and_flatten_alt_are_equivalent();
    if list.len() > 0 {
        let rest = list.drop_last();
        held_is_counted(rest, id);
        let before = rest.map_values(|a: AssignmentModel| a.replicas);
        before.lemma_flatten_and_flatten_alt_are_equivalent();
        assert(sets.drop_last() =~= before);
        assert(sets.flatten_alt() == before.flatten_alt() + list.last().replicas);
        Seq::filter_distributes_over_add(
            before.flatten_alt(),
            list.last().replicas,
            |x: Seq<char>| x == id,
        );
        named_is_filtered(list.last().replicas, id);
    } else {
        assert(sets.flatten_alt() =~= Seq::empty());
    }
}

/// Whether a list of workers stands for some nodes: each of them, in order, with the replicas it
/// holds and the shards it leads over all assignments.
pub open spec fn counts_of(
    workers: Seq<WorkerModel>,
    nodes: Seq<NodeModel>,
    list: Seq<AssignmentModel>,
) -> bool {
    &&& workers.len() == nodes.len()
    &&& forall|i: int|
        0 <= i < workers.len() ==> {
            let w = #[trigger] workers[i];
            &&& w.node == nodes[i]
            &&& stands_for(w.load, replicas_on(list, w.node.node_id))
            &&& stands_for(w.leads, led_by(list, w.node.node_id))
        }
}

/// A pass begins with the healthy nodes, each with the replicas it holds and the shards it leads.
pub proof fn healthy_nodes_are_counted(nodes: Seq<NodeModel>, list: Seq<AssignmentModel>)
    ensures
        counts_of(
            scheduler_model::healthy_workers(nodes, list),
            nodes.filter(|n: NodeModel| n.health == NodeHealth::Healthy),
            list,
        ),
    decreases nodes.len(),
{
    reveal(Seq::filter);
    if nodes.len() > 0 {
        let rest = nodes.drop_last();
        healthy_nodes_are_counted(rest, list);
        let up = |n: NodeModel| n.health == NodeHealth::Healthy;
        let before = scheduler_model::healthy_workers(rest, list);
        let now = scheduler_model::healthy_workers(nodes, list);
        if nodes.last().health == NodeHealth::Healthy {
            held_is_counted(list, nodes.last().node_id);
            assert forall|i: int| 0 <= i < now.len() implies {
                let w = #[trigger] now[i];
                &&& w.node == nodes.filter(up)[i]
                &&& stands_for(w.load, replicas_on(list, w.node.node_id))
                &&& stands_for(w.leads, led_by(list, w.node.node_id))
            } by {
                if i < before.len() {
                    assert(now[i] == before[i]);
                }
            }
        }
    }
}

proof fn rank_counts(some: Seq<WorkerModel>, w: WorkerModel, v: WorkerModel)
    requires
        scheduler_model::kept_before(w, v) || w == v,
    ensures
        scheduler_model::rank(some, w) <= scheduler_model::rank(some, v),
        scheduler_model::kept_before(w, v) && some.contains(w) ==> scheduler_model::rank(some, w)
            < scheduler_model::rank(some, v),
    decreases some.len(),
{
    if some.len() > 0 {
        let rest = some.drop_last();
        rank_counts(rest, w, v);
        let u = some.last();
        if scheduler_model::kept_before(u, w) && scheduler_model::kept_before(w, v) {
            if u.load == w.load && w.load == v.load {
                text::text_lt_transitive(u.node.node_id, w.node.node_id, v.node.node_id);
            }
        }
        text::text_lt_irreflexive(w.node.node_id);
        if some.contains(w) && w != u {
            let i = choose|i: int| 0 <= i < some.len() && some[i] == w;
            assert(rest[i] == w);
        }
    }
}

/// Where there are more healthy nodes than the plan wants, the workers are those that hold the
/// most replicas, and of nodes that hold as many those with the lower ids; as many as are wanted.
pub proof fn the_heaviest_stay_active(
    all: Seq<WorkerModel>,
    target: nat,
    w: WorkerModel,
    v: WorkerModel,
)
    requires
        scheduler_stability::distinct_workers(all),
        scheduler_model::active_workers(all, target).contains(w),
        all.contains(v),
        !scheduler_model::active_workers(all, target).contains(v),
    ensures
        all.contains(w),
        all.len() > target,
        w.load > v.load || (w.load == v.load && text::text_lt(w.node.node_id, v.node.node_id)),
{
    let a = scheduler_model::active_workers(all, target);
    scheduler_stability::active_workers_shape(all, target);
    let x = choose|x: int| 0 <= x < a.len() && a[x] == w;
    assert(all.contains(a[x]));
    in_top(all, all, target, w);
    in_top(all, all, target, v);
    text::text_lt_total(w.node.node_id, v.node.node_id);
    let i = choose|i: int| 0 <= i < all.len() && all[i] == w;
    let j = choose|j: int| 0 <= j < all.len() && all[j] == v;
    if w.node.node_id == v.node.node_id {
        if i < j {
            assert(all[i].node.node_id != all[j].node.node_id);
        } else if j < i {
            assert(all[j].node.node_id != all[i].node.node_id);
        }
    }
    if !scheduler_model::kept_before(w, v) {
        assert(scheduler_model::kept_before(v, w));
        rank_counts(all, v, w);
    }
}

proof fn in_top(some: Seq<WorkerModel>, all: Seq<WorkerModel>, target: nat, w: WorkerModel)
    ensures
        scheduler_model::top(some, all, target).contains(w) <==> some.contains(w)
            && scheduler_model::rank(all, w) < target,
    decreases some.len(),
{
    if some.len() > 0 {
        let rest = some.drop_last();
        in_top(rest, all, target, w);
        let t = scheduler_model::top(some, all, target);
        let p = scheduler_model::top(rest, all, target);
        if p.contains(w) {
            let i = choose|i: int| 0 <= i < p.len() && p[i] == w;
            assert(t[i] == w);
        }
        if rest.contains(w) {
            let i = choose|i: int| 0 <= i < rest.len() && rest[i] == w;
            assert(some[i] == w);
        }
        if some.last() == w {
            assert(some[some.len() - 1] == w);
            if scheduler_model::rank(all, w) < target {
                assert(t[p.len() as int] == w);
            }
        }
        if some.contains(w) && w != some.last() {
            let i = choose|i: int| 0 <= i < some.len() && some[i] == w;
            assert(rest[i] == w);
        }
        if t.contains(w) && !p.contains(w) {
            let i = choose|i: int| 0 <= i < t.len() && t[i] == w;
            if i < p.len() {
                assert(p[i] == w);
            }
        }
    }
}

/// The workers of a pass are all healthy nodes, where the plan wants as many, and otherwise exactly
/// as many of them as it wants: at least the replication factor, which is at least one.
pub proof fn as_many_work_as_are_wanted(
    nodes: Seq<NodeModel>,
    list: Seq<AssignmentModel>,
    scale: ScalePlan,
)
    requires
        scheduler_stability::distinct_workers(scheduler_model::healthy_workers(nodes, list)),
    ensures
        ({
            let up = nodes.filter(|n: NodeModel| n.health == NodeHealth::Healthy);
            let rf = if scale.replication_factor == 0 {
                1int
            } else {
                scale.replication_factor as int
            };
            let wanted = if scale.target_nodes as int <= rf {
                rf
            } else {
                scale.target_nodes as int
            };
            let w = scheduler_model::first_workers(nodes, list, scale);
            &&& up.len() <= wanted ==> counts_of(w, up, list)
            &&& up.len() > wanted ==> w.len() == wanted
            &&& forall|i: int|
                0 <= i < w.len() ==> scheduler_model::healthy_workers(nodes, list).contains(
                    #[trigger] w[i],
                )
        }),
{
    let all = scheduler_model::healthy_workers(nodes, list);
    let target = scheduler_model::plan_target(scale);
    healthy_nodes_are_counted(nodes, list);
    scheduler_stability::active_workers_shape(all, target);
    if all.len() > target {
        top_is_bounded(all, target);
    }
}

proof fn top_is_bounded(all: Seq<WorkerModel>, target: nat)
    requires
        scheduler_stability::distinct_workers(all),
    ensures
        scheduler_model::top(all, all, target).len() <= target,
{
    let t = scheduler_model::top(all, all, target);
    scheduler_stability::top_shape(all, all, target);
    if t.len() > target {
        let ranks = Set::new(|r: int| 0 <= r < target);
        vstd::set_lib::lemma_int_range(0, target as int);
        assert(ranks =~= vstd::set_lib::set_int_range(0, target as int));
        let of = t.map_values(|w: WorkerModel| scheduler_model::rank(all, w) as int);
        assert forall|i: int, j: int| 0 <= i < of.len() && 0 <= j < of.len() && i != j implies of[i]
            != of[j] by {
            let (a, b) = (t[i], t[j]);
            assert(all.contains(a) && all.contains(b));
            if i < j {
                assert(t[i].node.node_id != t[j].node.node_id);
            } else {
                assert(t[j].node.node_id != t[i].node.node_id);
            }
            text::text_lt_total(a.node.node_id, b.node.node_id);
            if scheduler_model::kept_before(a, b) {
                rank_counts(all, a, b);
            } else {
                assert(scheduler_model::kept_before(b, a));
                rank_counts(all, b, a);
            }
        }
        of.unique_seq_to_set();
        assert forall|r: int| of.to_set().contains(r) implies ranks.contains(r) by {
            let i = choose|i: int| 0 <= i < of.len() && of[i] == r;
            assert(t.contains(t[i]));
            in_top(all, all, target, t[i]);
        }
        vstd::set_lib::lemma_len_subset(of.to_set(), ranks);
    }
}

proof fn loads_by_naming(w: Seq<WorkerModel>, ids: Seq<Seq<char>>, i: int)
    requires
        0 <= i < w.len(),
    ensures
        ({
            let n = naming(ids, w[i].node.node_id);
            &&& w[i].load + n <= u32::MAX ==> scheduler_model::loaded(w, ids)[i].load == w[i].load
                + n
            &&& n <= w[i].load ==> scheduler_model::unloaded(w, ids)[i].load == w[i].load - n
        }),
    decreases ids.len(),
{
    reveal(Seq::filter);
    if ids.len() > 0 {
        loads_by_naming(w, ids.drop_last(), i);
        scheduler_stability::loads_keep_nodes(w, ids.drop_last());
    }
}

/// From one shard to the next every worker's counts follow what was decided: one replica less for
/// each of the shard's replicas it held, one more for each it is to hold, one lead less where it
/// led the shard, and one more where it is to lead it. A shard that is held changes no count.
pub proof fn counts_follow_decisions(
    scene: Scene,
    workers: Seq<WorkerModel>,
    shard: ShardId,
    i: int,
)
    requires
        0 <= i < workers.len(),
    ensures
        ({
            let was = workers[i];
            let now = scene.workers_after(workers, shard)[i];
            let id = was.node.node_id;
            let held = naming(scene.current_replicas(shard), id);
            let holds = naming(scene.wanted(workers, shard).replicas, id);
            let led = if scene.assignments.dom().contains(shard)
                && scene.assignments[shard].preferred_leader == Some(id) {
                1int
            } else {
                0
            };
            let leads = if scene.wanted(workers, shard).preferred_leader == Some(id) {
                1int
            } else {
                0
            };
            &&& scene.workers_after(workers, shard).len() == workers.len()
            &&& now.node == was.node
            &&& scene.held(workers, shard) ==> now == was
            &&& !scene.held(workers, shard) && held <= was.load && was.load - held + holds
                <= u32::MAX ==> now.load == was.load - held + holds
            &&& !scene.held(workers, shard) && led <= was.leads && was.leads - led + leads
                <= u32::MAX ==> now.leads == was.leads - led + leads
        }),
{
    let current = scene.current_replicas(shard);
    let u = scheduler_model::unloaded(workers, current);
    scheduler_stability::loads_keep_nodes(workers, current);
    scheduler_stability::loads_keep_nodes(u, scene.desired(workers, shard));
    loads_by_naming(workers, current, i);
    loads_by_naming(u, scene.desired(workers, shard), i);
}

} // verus!
