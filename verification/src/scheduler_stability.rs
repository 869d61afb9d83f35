//! What reconciliation settles at: a full set of replicas where there are workers for one, and,
//! with one shard, a state that a second reconciliation leaves as it is.

use crate::cluster;
use crate::cluster::{CommandModel, StateModel};
use crate::leadership;
use crate::leadership::LeaderModel;
use crate::membership;
use crate::membership_laws;
use crate::model::{AssignmentModel, NodeHealth, NodeModel, PolicyModel, ShardId};
use crate::placement;
use crate::plan;
use crate::plan::SlotModel;
use crate::plan_laws;
use crate::scheduler;
use crate::scheduler_laws;
use crate::scheduler_model;
use crate::scheduler_model::{Scene, WorkerModel};
use crate::text;
use vstd::prelude::*;

verus! {

/// The healthy nodes of a list, in order.
pub open spec fn healthy_only(nodes: Seq<NodeModel>) -> Seq<NodeModel>
    decreases nodes.len(),
{
    if nodes.len() == 0 {
        Seq::empty()
    } else {
        let before = healthy_only(nodes.drop_last());
        if nodes.last().health == NodeHealth::Healthy {
            before.push(nodes.last())
        } else {
            before
        }
    }
}

/// The healthy nodes of a registry.
pub open spec fn healthy_part(nodes: Map<Seq<char>, NodeModel>) -> Map<Seq<char>, NodeModel> {
    nodes.restrict(
        Set::new(
            |k: Seq<char>| nodes.dom().contains(k) && nodes[k].health == NodeHealth::Healthy,
        ),
    )
}

spec fn ids_ascend(nodes: Seq<NodeModel>) -> bool {
    forall|i: int, j: int|
        0 <= i < j < nodes.len() ==> text::text_lt(
            (#[trigger] nodes[i]).node_id,
            (#[trigger] nodes[j]).node_id,
        )
}

proof fn healthy_only_shape(nodes: Seq<NodeModel>)
    ensures
        forall|i: int|
            0 <= i < healthy_only(nodes).len() ==> nodes.contains(
                #[trigger] healthy_only(nodes)[i],
            ) && healthy_only(nodes)[i].health == NodeHealth::Healthy,
        forall|i: int|
            0 <= i < nodes.len() && (#[trigger] nodes[i]).health == NodeHealth::Healthy
                ==> healthy_only(nodes).contains(nodes[i]),
        ids_ascend(nodes) ==> ids_ascend(healthy_only(nodes)),
    decreases nodes.len(),
{
    if nodes.len() > 0 {
        let rest = nodes.drop_last();
        let last = nodes.last();
        healthy_only_shape(rest);
        let b = healthy_only(rest);
        let h = healthy_only(nodes);
        assert forall|i: int| 0 <= i < h.len() implies nodes.contains(#[trigger] h[i])
            && h[i].health == NodeHealth::Healthy by {
            if i < b.len() {
                assert(h[i] == b[i]);
                assert(rest.contains(b[i]));
                let k = rest.index_of(b[i]);
                assert(nodes[k] == h[i]);
            } else {
                assert(nodes[nodes.len() - 1] == h[i]);
            }
        }
        assert forall|i: int|
            0 <= i < nodes.len() && (#[trigger] nodes[i]).health
                == NodeHealth::Healthy implies h.contains(nodes[i]) by {
            if i < rest.len() {
                assert(rest[i] == nodes[i]);
                assert(b.contains(rest[i]));
                let k = b.index_of(rest[i]);
                assert(h[k] == nodes[i]);
            } else {
                assert(h[h.len() - 1] == nodes[i]);
            }
        }
        if ids_ascend(nodes) {
            assert forall|i: int, j: int| 0 <= i < j < rest.len() implies text::text_lt(
                (#[trigger] rest[i]).node_id,
                (#[trigger] rest[j]).node_id,
            ) by {
                assert(rest[i] == nodes[i] && rest[j] == nodes[j]);
            }
            assert forall|i: int, j: int| 0 <= i < j < h.len() implies text::text_lt(
                (#[trigger] h[i]).node_id,
                (#[trigger] h[j]).node_id,
            ) by {
                assert(h[i] == b[i]);
                if j < b.len() {
                    assert(h[j] == b[j]);
                } else {
                    assert(rest.contains(b[i]));
                    let k = rest.index_of(b[i]);
                    assert(nodes[k] == h[i]);
                    assert(nodes[nodes.len() - 1] == h[j]);
                }
            }
        }
    }
}

proof fn healthy_only_lists(nodes: Map<Seq<char>, NodeModel>, list: Seq<NodeModel>)
    requires
        membership::lists(nodes, list),
    ensures
        membership::lists(healthy_part(nodes), healthy_only(list)),
{
    healthy_only_shape(list);
    let h = healthy_only(list);
    let part = healthy_part(nodes);
    assert(ids_ascend(list));
    assert forall|i: int| 0 <= i < h.len() implies part.dom().contains((#[trigger] h[i]).node_id)
        && part[h[i].node_id] == h[i] by {
        let k = list.index_of(h[i]);
        assert(list[k] == h[i]);
    }
    assert forall|k: Seq<char>| #[trigger] part.dom().contains(k) implies exists|i: int|
        0 <= i < h.len() && (#[trigger] h[i]).node_id == k by {
        assert(nodes.dom().contains(k));
        let i = choose|i: int| 0 <= i < list.len() && (#[trigger] list[i]).node_id == k;
        assert(nodes[list[i].node_id] == list[i]);
        assert(h.contains(list[i]));
        assert(h[h.index_of(list[i])].node_id == k);
    }
}

/// Where a node goes in a list that ascends by id.
spec fn place(list: Seq<NodeModel>, id: Seq<char>) -> int
    decreases list.len(),
{
    if list.len() == 0 || text::text_lt(list.last().node_id, id) {
        list.len() as int
    } else {
        place(list.drop_last(), id)
    }
}

proof fn place_splits(list: Seq<NodeModel>, id: Seq<char>)
    requires
        ids_ascend(list),
        forall|i: int| 0 <= i < list.len() ==> (#[trigger] list[i]).node_id != id,
    ensures
        0 <= place(list, id) <= list.len(),
        forall|i: int| 0 <= i < place(list, id) ==> text::text_lt((#[trigger] list[i]).node_id, id),
        forall|i: int|
            place(list, id) <= i < list.len() ==> text::text_lt(id, (#[trigger] list[i]).node_id),
    decreases list.len(),
{
    if list.len() > 0 {
        let last = list.last();
        if text::text_lt(last.node_id, id) {
            assert forall|i: int| 0 <= i < list.len() implies text::text_lt(
                (#[trigger] list[i]).node_id,
                id,
            ) by {
                if i < list.len() - 1 {
                    assert(list[list.len() - 1] == last);
                    text::text_lt_transitive(list[i].node_id, last.node_id, id);
                }
            }
        } else {
            let rest = list.drop_last();
            assert forall|i: int, j: int| 0 <= i < j < rest.len() implies text::text_lt(
                (#[trigger] rest[i]).node_id,
                (#[trigger] rest[j]).node_id,
            ) by {
                assert(rest[i] == list[i] && rest[j] == list[j]);
            }
            assert forall|i: int| 0 <= i < rest.len() implies (#[trigger] rest[i]).node_id
                != id by {
                assert(rest[i] == list[i]);
            }
            place_splits(rest, id);
            assert(list[list.len() - 1] == last);
            text::text_lt_total(last.node_id, id);
            assert forall|i: int| place(list, id) <= i < list.len() implies text::text_lt(
                id,
                (#[trigger] list[i]).node_id,
            ) by {
                if i < rest.len() {
                    assert(rest[i] == list[i]);
                }
            }
            assert forall|i: int| 0 <= i < place(list, id) implies text::text_lt(
                (#[trigger] list[i]).node_id,
                id,
            ) by {
                assert(rest[i] == list[i]);
            }
        }
    }
}

/// Whether a registry is one: finitely many nodes, each under its own id.
pub open spec fn is_registry(nodes: Map<Seq<char>, NodeModel>) -> bool {
    &&& nodes.dom().finite()
    &&& forall|k: Seq<char>| #[trigger] nodes.dom().contains(k) ==> nodes[k].node_id == k
}

/// Every registry has a listing.
pub proof fn registries_have_listings(nodes: Map<Seq<char>, NodeModel>)
    requires
        is_registry(nodes),
    ensures
        membership::lists(nodes, membership::listing(nodes)),
    decreases nodes.dom().len(),
{
    if nodes.dom().len() == 0 {
        assert(nodes.dom() =~= Set::empty());
        assert(membership::lists(nodes, Seq::empty()));
    } else {
        let k = nodes.dom().choose();
        assert(nodes.dom().contains(k));
        let rest = nodes.remove(k);
        registries_have_listings(rest);
        let l = membership::listing(rest);
        assert forall|i: int| 0 <= i < l.len() implies (#[trigger] l[i]).node_id != k by {
            assert(rest.dom().contains(l[i].node_id));
        }
        assert(ids_ascend(l));
        place_splits(l, k);
        let p = place(l, k);
        let all = l.insert(p, nodes[k]);
        assert forall|i: int| 0 <= i < all.len() implies nodes.dom().contains(
            (#[trigger] all[i]).node_id,
        ) && nodes[all[i].node_id] == all[i] by {
            if i < p {
                assert(all[i] == l[i]);
            } else if i > p {
                assert(all[i] == l[i - 1]);
            }
        }
        assert forall|x: Seq<char>| #[trigger] nodes.dom().contains(x) implies exists|i: int|
            0 <= i < all.len() && (#[trigger] all[i]).node_id == x by {
            if x == k {
                assert(all[p].node_id == k);
            } else {
                assert(rest.dom().contains(x));
                let i = choose|i: int| 0 <= i < l.len() && (#[trigger] l[i]).node_id == x;
                if i < p {
                    assert(all[i] == l[i]);
                } else {
                    assert(all[i + 1] == l[i]);
                }
            }
        }
        assert forall|i: int, j: int| 0 <= i < j < all.len() implies text::text_lt(
            (#[trigger] all[i]).node_id,
            (#[trigger] all[j]).node_id,
        ) by {
            let a = if i < p { l[i] } else { if i > p { l[i - 1] } else { nodes[k] } };
            let b = if j < p { l[j] } else { if j > p { l[j - 1] } else { nodes[k] } };
            assert(all[i] == a && all[j] == b);
        }
        assert(membership::lists(nodes, all));
    }
}

proof fn healthy_decide(nodes: Seq<NodeModel>, listed: Seq<AssignmentModel>, shard: ShardId)
    ensures
        scheduler_model::healthy_workers(nodes, listed) == scheduler_model::healthy_workers(
            healthy_only(nodes),
            listed,
        ),
        scheduler_model::observed_leader(nodes, shard) == scheduler_model::observed_leader(
            healthy_only(nodes),
            shard,
        ),
        scheduler_model::observed_replicas(nodes, shard) == scheduler_model::observed_replicas(
            healthy_only(nodes),
            shard,
        ),
    decreases nodes.len(),
{
    if nodes.len() > 0 {
        let rest = nodes.drop_last();
        healthy_decide(rest, listed, shard);
        if nodes.last().health == NodeHealth::Healthy {
            assert(healthy_only(nodes).drop_last() =~= healthy_only(rest));
        }
    }
}

/// Whether a node is drained and hosts nothing any more.
pub open spec fn evacuated(n: NodeModel) -> bool {
    n.health == NodeHealth::Draining && n.hosted_shards.len() == 0
}

/// The evacuated nodes of a list that no assignment names.
pub open spec fn gone(
    list: Seq<NodeModel>,
    assignments: Map<ShardId, AssignmentModel>,
) -> Set<Seq<char>> {
    Set::new(
        |id: Seq<char>|
            !cluster::still_assigned(assignments, id) && exists|i: int|
                0 <= i < list.len() && (#[trigger] list[i]).node_id == id && evacuated(list[i]),
    )
}

proof fn forgets_remove(t: StateModel, list: Seq<NodeModel>)
    ensures
        t.applied_all(scheduler_model::forgets(list)) == (StateModel {
            nodes: t.nodes.remove_keys(gone(list, t.placement.assignments)),
            ..t
        }),
    decreases list.len(),
{
    let a = t.placement.assignments;
    if list.len() == 0 {
        assert(t.nodes.remove_keys(gone(list, a)) =~= t.nodes);
    } else {
        let rest = list.drop_last();
        let last = list.last();
        forgets_remove(t, rest);
        assert forall|id: Seq<char>| gone(list, a).contains(id) == (gone(rest, a).contains(id) || (
        last.node_id == id && evacuated(last) && !cluster::still_assigned(a, id))) by {
            if gone(rest, a).contains(id) {
                let i = choose|i: int|
                    0 <= i < rest.len() && (#[trigger] rest[i]).node_id == id && evacuated(rest[i]);
                assert(list[i] == rest[i]);
            }
            if gone(list, a).contains(id) {
                let i = choose|i: int|
                    0 <= i < list.len() && (#[trigger] list[i]).node_id == id && evacuated(list[i]);
                if i < rest.len() {
                    assert(rest[i] == list[i]);
                }
            }
            if last.node_id == id && evacuated(last) {
                assert(list[list.len() - 1].node_id == id);
            }
        }
        if evacuated(last) {
            let f = scheduler_model::forgets(list);
            assert(f.drop_last() =~= scheduler_model::forgets(rest));
            assert(f.last() == CommandModel::ForgetNode(last.node_id));
        }
        assert(t.applied_all(scheduler_model::forgets(list)).nodes =~= t.nodes.remove_keys(
            gone(list, a),
        ));
    }
}

proof fn applied_in_parts(t: StateModel, a: Seq<CommandModel>, b: Seq<CommandModel>)
    ensures
        t.applied_all(a + b) == t.applied_all(a).applied_all(b),
    decreases b.len(),
{
    if b.len() == 0 {
        assert(a + b =~= a);
    } else {
        assert((a + b).drop_last() =~= a + b.drop_last());
        assert((a + b).last() == b.last());
        applied_in_parts(t, a, b.drop_last());
    }
}

/// Whether no two workers are the same node.
pub open spec fn distinct_workers(w: Seq<WorkerModel>) -> bool {
    forall|i: int, j: int|
        0 <= i < j < w.len() ==> (#[trigger] w[i]).node.node_id != (#[trigger] w[j]).node.node_id
}

/// The worker that a healthy node makes.
pub open spec fn worker_of(node: NodeModel, listed: Seq<AssignmentModel>) -> WorkerModel {
    WorkerModel {
        node,
        load: scheduler_model::counted(scheduler_model::replicas_held(listed, node.node_id)),
        leads: scheduler_model::counted(scheduler_model::shards_led(listed, node.node_id)),
    }
}

proof fn workers_shape(healthy: Seq<NodeModel>, listed: Seq<AssignmentModel>)
    requires
        forall|i: int|
            0 <= i < healthy.len() ==> (#[trigger] healthy[i]).health == NodeHealth::Healthy,
    ensures
        scheduler_model::healthy_workers(healthy, listed) == Seq::new(
            healthy.len(),
            |i: int| worker_of(healthy[i], listed),
        ),
    decreases healthy.len(),
{
    let all = scheduler_model::healthy_workers(healthy, listed);
    if healthy.len() > 0 {
        let rest = healthy.drop_last();
        assert forall|i: int| 0 <= i < rest.len() implies (#[trigger] rest[i]).health
            == NodeHealth::Healthy by {
            assert(rest[i] == healthy[i]);
        }
        workers_shape(rest, listed);
        assert(healthy[healthy.len() - 1].health == NodeHealth::Healthy);
        assert(all =~= Seq::new(healthy.len(), |i: int| worker_of(healthy[i], listed)));
    } else {
        assert(all =~= Seq::new(healthy.len(), |i: int| worker_of(healthy[i], listed)));
    }
}

proof fn kept_before_is_strict(a: WorkerModel, b: WorkerModel, c: WorkerModel)
    ensures
        !scheduler_model::kept_before(a, a),
        scheduler_model::kept_before(a, b) && scheduler_model::kept_before(b, c)
            ==> scheduler_model::kept_before(a, c),
{
    text::text_lt_irreflexive(a.node.node_id);
    if text::text_lt(a.node.node_id, b.node.node_id) && text::text_lt(
        b.node.node_id,
        c.node.node_id,
    ) {
        text::text_lt_transitive(a.node.node_id, b.node.node_id, c.node.node_id);
    }
}

proof fn rank_grows(some: Seq<WorkerModel>, u: WorkerModel, m: WorkerModel)
    requires
        scheduler_model::kept_before(u, m),
    ensures
        scheduler_model::rank(some, u) + if some.contains(u) {
            1int
        } else {
            0int
        } <= scheduler_model::rank(some, m),
    decreases some.len(),
{
    if some.len() > 0 {
        let rest = some.drop_last();
        rank_grows(rest, u, m);
        kept_before_is_strict(some.last(), u, m);
        kept_before_is_strict(u, u, u);
        if some.contains(u) {
            let k = some.index_of(u);
            if k < rest.len() {
                assert(rest[k] == u);
            } else {
                assert(some.last() == u);
            }
        }
    }
}

/// The workers that rank first are some of all, and as distinct.
pub proof fn top_shape(some: Seq<WorkerModel>, all: Seq<WorkerModel>, target: nat)
    ensures
        forall|i: int|
            0 <= i < scheduler_model::top(some, all, target).len() ==> some.contains(
                #[trigger] scheduler_model::top(some, all, target)[i],
            ),
        forall|i: int|
            0 <= i < some.len() && scheduler_model::rank(all, #[trigger] some[i]) < target
                ==> scheduler_model::top(some, all, target).contains(some[i]),
        distinct_workers(some) ==> distinct_workers(scheduler_model::top(some, all, target)),
    decreases some.len(),
{
    if some.len() > 0 {
        let rest = some.drop_last();
        top_shape(rest, all, target);
        let b = scheduler_model::top(rest, all, target);
        let t = scheduler_model::top(some, all, target);
        assert forall|i: int| 0 <= i < t.len() implies some.contains(#[trigger] t[i]) by {
            if i < b.len() {
                assert(t[i] == b[i]);
                assert(rest.contains(b[i]));
                assert(some[rest.index_of(b[i])] == t[i]);
            } else {
                assert(some[some.len() - 1] == t[i]);
            }
        }
        assert forall|i: int|
            0 <= i < some.len() && scheduler_model::rank(all, #[trigger] some[i])
                < target implies t.contains(some[i]) by {
            if i < rest.len() {
                assert(rest[i] == some[i]);
                assert(b.contains(rest[i]));
                assert(t[b.index_of(rest[i])] == some[i]);
            } else {
                assert(t[t.len() - 1] == some[i]);
            }
        }
        if distinct_workers(some) {
            assert forall|i: int, j: int| 0 <= i < j < rest.len() implies (
            #[trigger] rest[i]).node.node_id != (#[trigger] rest[j]).node.node_id by {
                assert(rest[i] == some[i] && rest[j] == some[j]);
            }
            assert forall|i: int, j: int| 0 <= i < j < t.len() implies (
            #[trigger] t[i]).node.node_id != (#[trigger] t[j]).node.node_id by {
                assert(t[i] == b[i]);
                if j < b.len() {
                    assert(t[j] == b[j]);
                } else {
                    assert(rest.contains(b[i]));
                    let k = rest.index_of(b[i]);
                    assert(some[k] == t[i]);
                    assert(some[some.len() - 1] == t[j]);
                }
            }
        }
    }
}

proof fn predecessors_are_in_top(
    some: Seq<WorkerModel>,
    all: Seq<WorkerModel>,
    target: nat,
    m: WorkerModel,
)
    requires
        forall|i: int|
            0 <= i < some.len() && scheduler_model::kept_before(#[trigger] some[i], m)
                ==> scheduler_model::rank(all, some[i]) < target,
    ensures
        scheduler_model::rank(some, m) <= scheduler_model::top(some, all, target).len(),
    decreases some.len(),
{
    if some.len() > 0 {
        let rest = some.drop_last();
        assert forall|i: int|
            0 <= i < rest.len() && scheduler_model::kept_before(
                #[trigger] rest[i],
                m,
            ) implies scheduler_model::rank(all, rest[i]) < target by {
            assert(rest[i] == some[i]);
        }
        predecessors_are_in_top(rest, all, target, m);
        assert(some[some.len() - 1] == some.last());
    }
}

proof fn top_is_full(all: Seq<WorkerModel>, target: nat, m: int)
    requires
        0 <= m < all.len(),
        scheduler_model::rank(all, all[m]) >= target,
    ensures
        scheduler_model::top(all, all, target).len() >= target,
    decreases scheduler_model::rank(all, all[m]),
{
    if exists|u: int|
        0 <= u < all.len() && scheduler_model::kept_before(#[trigger] all[u], all[m])
            && scheduler_model::rank(all, all[u]) >= target {
        let u = choose|u: int|
            0 <= u < all.len() && scheduler_model::kept_before(#[trigger] all[u], all[m])
                && scheduler_model::rank(all, all[u]) >= target;
        rank_grows(all, all[u], all[m]);
        assert(all.contains(all[u]));
        top_is_full(all, target, u);
    } else {
        predecessors_are_in_top(all, all, target, all[m]);
    }
}

proof fn top_of_all(some: Seq<WorkerModel>, all: Seq<WorkerModel>, target: nat)
    requires
        forall|i: int|
            0 <= i < some.len() ==> scheduler_model::rank(all, #[trigger] some[i]) < target,
    ensures
        scheduler_model::top(some, all, target) == some,
    decreases some.len(),
{
    if some.len() > 0 {
        let rest = some.drop_last();
        assert forall|i: int| 0 <= i < rest.len() implies scheduler_model::rank(
            all,
            #[trigger] rest[i],
        ) < target by {
            assert(rest[i] == some[i]);
        }
        top_of_all(rest, all, target);
        assert(some[some.len() - 1] == some.last());
        assert(rest.push(some.last()) =~= some);
    } else {
        assert(some =~= Seq::empty());
    }
}

/// The workers a plan wants are some of the healthy ones, and there are as many of them as it asks
/// for, or all there are.
pub proof fn active_workers_shape(all: Seq<WorkerModel>, target: nat)
    requires
        distinct_workers(all),
    ensures
        ({
            let w = scheduler_model::active_workers(all, target);
            &&& distinct_workers(w)
            &&& forall|i: int| 0 <= i < w.len() ==> all.contains(#[trigger] w[i])
            &&& w.len() >= if all.len() <= target {
                all.len()
            } else {
                target
            }
        }),
{
    if all.len() > target {
        top_shape(all, all, target);
        let w = scheduler_model::active_workers(all, target);
        if w.len() < target {
            if forall|i: int|
                0 <= i < all.len() ==> scheduler_model::rank(all, #[trigger] all[i]) < target {
                top_of_all(all, all, target);
            } else {
                let m = choose|m: int|
                    0 <= m < all.len() && scheduler_model::rank(all, #[trigger] all[m]) >= target;
                top_is_full(all, target, m);
            }
        }
    } else {
        assert forall|i: int| 0 <= i < all.len() implies all.contains(#[trigger] all[i]) by {}
    }
}

/// How many workers are among `ids`.
spec fn workers_among(w: Seq<WorkerModel>, ids: Seq<Seq<char>>) -> nat
    decreases w.len(),
{
    if w.len() == 0 {
        0
    } else {
        workers_among(w.drop_last(), ids) + if ids.contains(w.last().node.node_id) {
            1nat
        } else {
            0nat
        }
    }
}

proof fn distinct_prefix(w: Seq<WorkerModel>)
    requires
        w.len() > 0,
        distinct_workers(w),
    ensures
        distinct_workers(w.drop_last()),
        forall|i: int|
            0 <= i < w.len() - 1 ==> (#[trigger] w.drop_last()[i]).node.node_id
                != w.last().node.node_id,
{
    let rest = w.drop_last();
    assert forall|i: int, j: int| 0 <= i < j < rest.len() implies (
    #[trigger] rest[i]).node.node_id != (#[trigger] rest[j]).node.node_id by {
        assert(rest[i] == w[i] && rest[j] == w[j]);
    }
    assert forall|i: int| 0 <= i < w.len() - 1 implies (#[trigger] rest[i]).node.node_id
        != w.last().node.node_id by {
        assert(rest[i] == w[i]);
        assert(w[w.len() - 1] == w.last());
    }
}

proof fn one_more_id(w: Seq<WorkerModel>, ids: Seq<Seq<char>>, x: Seq<char>)
    requires
        distinct_workers(w),
    ensures
        workers_among(w, ids.push(x)) <= workers_among(w, ids) + if exists|i: int|
            0 <= i < w.len() && (#[trigger] w[i]).node.node_id == x {
            1int
        } else {
            0int
        },
    decreases w.len(),
{
    if w.len() > 0 {
        let rest = w.drop_last();
        distinct_prefix(w);
        one_more_id(rest, ids, x);
        let last = w.last().node.node_id;
        if ids.contains(last) {
            assert(ids.push(x)[ids.index_of(last)] == last);
        }
        if ids.push(x).contains(last) && last != x {
            let k = ids.push(x).index_of(last);
            assert(ids[k] == last);
        }
        if exists|i: int| 0 <= i < rest.len() && (#[trigger] rest[i]).node.node_id == x {
            let i = choose|i: int| 0 <= i < rest.len() && (#[trigger] rest[i]).node.node_id == x;
            assert(w[i].node.node_id == x);
        }
        if last == x {
            assert(w[w.len() - 1].node.node_id == x);
        }
    }
}

proof fn among_is_bounded(w: Seq<WorkerModel>, ids: Seq<Seq<char>>)
    requires
        distinct_workers(w),
    ensures
        workers_among(w, ids) <= ids.len(),
    decreases ids.len(),
{
    if ids.len() == 0 {
        nobody_among(w, ids);
    } else {
        let rest = ids.drop_last();
        among_is_bounded(w, rest);
        one_more_id(w, rest, ids.last());
        assert(rest.push(ids.last()) =~= ids);
    }
}

proof fn nobody_among(w: Seq<WorkerModel>, ids: Seq<Seq<char>>)
    requires
        ids.len() == 0,
    ensures
        workers_among(w, ids) == 0,
    decreases w.len(),
{
    if w.len() > 0 {
        nobody_among(w.drop_last(), ids);
    }
}

proof fn everybody_among(w: Seq<WorkerModel>, ids: Seq<Seq<char>>)
    requires
        forall|i: int| 0 <= i < w.len() ==> ids.contains((#[trigger] w[i]).node.node_id),
    ensures
        workers_among(w, ids) == w.len(),
    decreases w.len(),
{
    if w.len() > 0 {
        let rest = w.drop_last();
        assert forall|i: int| 0 <= i < rest.len() implies ids.contains(
            (#[trigger] rest[i]).node.node_id,
        ) by {
            assert(rest[i] == w[i]);
        }
        everybody_among(rest, ids);
        assert(w[w.len() - 1] == w.last());
    }
}

/// A worker that holds the one replica it can hold ranks before all that hold none, so at most the
/// other holders rank before it.
proof fn holders_rank_first(some: Seq<WorkerModel>, ids: Seq<Seq<char>>, w: WorkerModel)
    requires
        distinct_workers(some),
        forall|i: int|
            0 <= i < some.len() ==> (#[trigger] some[i]).load == if ids.contains(
                some[i].node.node_id,
            ) {
                1u32
            } else {
                0u32
            },
        ids.contains(w.node.node_id),
        w.load == 1,
    ensures
        scheduler_model::rank(some, w) + if exists|i: int|
            0 <= i < some.len() && (#[trigger] some[i]).node.node_id == w.node.node_id {
            1int
        } else {
            0int
        } <= workers_among(some, ids),
    decreases some.len(),
{
    if some.len() > 0 {
        let rest = some.drop_last();
        distinct_prefix(some);
        assert forall|i: int| 0 <= i < rest.len() implies (#[trigger] rest[i]).load
            == if ids.contains(rest[i].node.node_id) {
            1u32
        } else {
            0u32
        } by {
            assert(rest[i] == some[i]);
        }
        holders_rank_first(rest, ids, w);
        assert(some[some.len() - 1] == some.last());
        text::text_lt_irreflexive(w.node.node_id);
        if exists|i: int|
            0 <= i < some.len() && (#[trigger] some[i]).node.node_id == w.node.node_id {
            let i = choose|i: int|
                0 <= i < some.len() && (#[trigger] some[i]).node.node_id == w.node.node_id;
            if i < rest.len() {
                assert(rest[i].node.node_id == w.node.node_id);
            }
        }
    }
}

proof fn named_once(ids: Seq<Seq<char>>, id: Seq<char>)
    requires
        ids.no_duplicates(),
    ensures
        scheduler_model::times_named(ids, id) == if ids.contains(id) {
            1nat
        } else {
            0nat
        },
    decreases ids.len(),
{
    if ids.len() > 0 {
        let rest = ids.drop_last();
        assert forall|i: int, j: int|
            0 <= i < rest.len() && 0 <= j < rest.len() && i != j implies rest[i] != rest[j] by {
            assert(rest[i] == ids[i] && rest[j] == ids[j]);
        }
        named_once(rest, id);
        if rest.contains(id) {
            let k = rest.index_of(id);
            assert(ids[k] == id);
            assert(ids[k] != ids[ids.len() - 1]);
        }
        if ids.contains(id) {
            let k = ids.index_of(id);
            if k < rest.len() {
                assert(rest[k] == id);
            }
        }
        if ids.last() == id {
            assert(ids[ids.len() - 1] == id);
        }
    }
}

proof fn slot_is_listed(healthy: Seq<SlotModel>, id: Seq<char>)
    ensures
        plan::slot_of(healthy, id) matches Some(s) ==> healthy.contains(s),
    decreases healthy.len(),
{
    if healthy.len() > 0 {
        let rest = healthy.drop_last();
        slot_is_listed(rest, id);
        if let Some(s) = plan::slot_of(rest, id) {
            assert(healthy[rest.index_of(s)] == s);
        } else if healthy.last().node_id == id {
            assert(healthy[healthy.len() - 1] == healthy.last());
        }
    }
}

/// Where nobody holds more than one replica, nothing is moved to even the load out.
pub proof fn light_loads_stay(replicas: Seq<Seq<char>>, healthy: Seq<SlotModel>)
    requires
        forall|i: int| 0 <= i < healthy.len() ==> (#[trigger] healthy[i]).load <= 1,
    ensures
        scheduler_model::rebalanced(replicas, healthy) == replicas,
{
    scheduler_laws::rebalancing_moves_at_most_one(replicas, healthy);
    let r = scheduler_model::rebalanced(replicas, healthy);
    if r != replicas {
        let (v, i) = choose|v: int, i: int|
            0 <= v < replicas.len() && 0 <= i < healthy.len() && r == #[trigger] replicas.update(
                v,
                (#[trigger] healthy[i]).node_id,
            ) && !replicas.contains(healthy[i].node_id) && plan::load_of(healthy, replicas[v])
                >= healthy[i].load + 2;
        slot_is_listed(healthy, replicas[v]);
        if let Some(s) = plan::slot_of(healthy, replicas[v]) {
            let k = healthy.index_of(s);
            assert(healthy[k] == s);
        }
    }
}

/// Counting replicas keeps the workers: the same nodes in the same order, leading what they led.
pub proof fn loads_keep_nodes(w: Seq<WorkerModel>, ids: Seq<Seq<char>>)
    ensures
        scheduler_model::loaded(w, ids).len() == w.len(),
        scheduler_model::unloaded(w, ids).len() == w.len(),
        forall|i: int|
            0 <= i < w.len() ==> (#[trigger] scheduler_model::loaded(w, ids)[i]).node == w[i].node
                && scheduler_model::loaded(w, ids)[i].leads == w[i].leads,
        forall|i: int|
            0 <= i < w.len() ==> (#[trigger] scheduler_model::unloaded(w, ids)[i]).node
                == w[i].node && scheduler_model::unloaded(w, ids)[i].leads == w[i].leads,
    decreases ids.len(),
{
    if ids.len() > 0 {
        loads_keep_nodes(w, ids.drop_last());
        let l = scheduler_model::loaded(w, ids.drop_last());
        let u = scheduler_model::unloaded(w, ids.drop_last());
        assert forall|i: int| 0 <= i < w.len() implies (#[trigger] scheduler_model::loaded(
            w,
            ids,
        )[i]).node == w[i].node && scheduler_model::loaded(w, ids)[i].leads == w[i].leads by {
            assert(l[i].node == w[i].node);
        }
        assert forall|i: int| 0 <= i < w.len() implies (#[trigger] scheduler_model::unloaded(
            w,
            ids,
        )[i]).node == w[i].node && scheduler_model::unloaded(w, ids)[i].leads == w[i].leads by {
            assert(u[i].node == w[i].node);
        }
    }
}

/// A worker as a candidate to lead.
pub proof fn leader_slot_shape(w: Seq<WorkerModel>, i: int)
    requires
        0 <= i < w.len(),
        distinct_workers(w),
    ensures
        scheduler_model::leader_slot(w, w[i].node.node_id) == (LeaderModel {
            node_id: w[i].node.node_id,
            cloud_provider: w[i].node.cloud_provider,
            region: w[i].node.region,
            leader_load: w[i].leads,
        }),
    decreases w.len(),
{
    let rest = w.drop_last();
    if i < rest.len() {
        distinct_prefix(w);
        assert(rest[i] == w[i]);
        assert(rest[i].node.node_id != w.last().node.node_id);
        leader_slot_shape(rest, i);
    }
}

/// The ids of the workers are those of their nodes.
pub proof fn worker_ids_shape(w: Seq<WorkerModel>, id: Seq<char>)
    ensures
        scheduler_model::worker_ids(w).contains(id) <==> exists|i: int|
            0 <= i < w.len() && (#[trigger] w[i]).node.node_id == id,
    decreases w.len(),
{
    if w.len() > 0 {
        let rest = w.drop_last();
        worker_ids_shape(rest, id);
        if exists|i: int| 0 <= i < rest.len() && (#[trigger] rest[i]).node.node_id == id {
            let i = choose|i: int| 0 <= i < rest.len() && (#[trigger] rest[i]).node.node_id == id;
            assert(w[i].node.node_id == id);
        }
        if w.last().node.node_id == id {
            assert(w[w.len() - 1].node.node_id == id);
        }
        if exists|i: int| 0 <= i < w.len() && (#[trigger] w[i]).node.node_id == id {
            let i = choose|i: int| 0 <= i < w.len() && (#[trigger] w[i]).node.node_id == id;
            if i < rest.len() {
                assert(rest[i].node.node_id == id);
            }
        }
    }
}

proof fn same_candidates_same_leader(
    slots: Seq<LeaderModel>,
    replicas: Seq<Seq<char>>,
    a: Set<Seq<char>>,
    b: Set<Seq<char>>,
    policy: Option<PolicyModel>,
    current: Option<Seq<char>>,
)
    requires
        forall|i: int|
            0 <= i < slots.len() ==> a.contains((#[trigger] slots[i]).node_id) == b.contains(
                slots[i].node_id,
            ),
    ensures
        leadership::best_leader(slots, replicas, a, policy, current) == leadership::best_leader(
            slots,
            replicas,
            b,
            policy,
            current,
        ),
    decreases slots.len(),
{
    if slots.len() > 0 {
        let rest = slots.drop_last();
        assert forall|i: int| 0 <= i < rest.len() implies a.contains((#[trigger] rest[i]).node_id)
            == b.contains(rest[i].node_id) by {
            assert(rest[i] == slots[i]);
        }
        same_candidates_same_leader(rest, replicas, a, b, policy, current);
        assert(slots[slots.len() - 1] == slots.last());
    }
}

/// The scene of a reconciliation of a state.
pub open spec fn scene_of(s: StateModel) -> Scene {
    scheduler_model::scene(
        membership::listing(s.nodes),
        s.placement.assignments,
        s.placement.policies,
        s.plan,
    )
}

/// The workers a reconciliation of a state starts with.
pub open spec fn workers_of(s: StateModel) -> Seq<WorkerModel> {
    scheduler_model::first_workers(
        membership::listing(s.nodes),
        placement::assignment_listing(s.placement.assignments),
        s.plan,
    )
}

/// The healthy nodes of a registry are distinct workers.
pub proof fn healthy_are_distinct(s: StateModel)
    requires
        is_registry(s.nodes),
    ensures
        distinct_workers(
            scheduler_model::healthy_workers(
                membership::listing(s.nodes),
                placement::assignment_listing(s.placement.assignments),
            ),
        ),
{
    registries_have_listings(s.nodes);
    let list = membership::listing(s.nodes);
    let listed = placement::assignment_listing(s.placement.assignments);
    let h = healthy_only(list);
    let all = scheduler_model::healthy_workers(list, listed);
    healthy_only_shape(list);
    healthy_decide(list, listed, 0);
    workers_shape(h, listed);
    assert(ids_ascend(list));
    assert forall|i: int, j: int| 0 <= i < j < all.len() implies (
    #[trigger] all[i]).node.node_id != (#[trigger] all[j]).node.node_id by {
        assert(all[i].node == h[i] && all[j].node == h[j]);
        text::text_lt_irreflexive(h[i].node_id);
    }
}

/// A reconciliation takes no node for two workers, and so offers none as a candidate twice.
pub proof fn workers_are_distinct(s: StateModel)
    requires
        is_registry(s.nodes),
    ensures
        distinct_workers(workers_of(s)),
        plan_laws::listed_once(scheduler_model::slots(workers_of(s))),
{
    healthy_are_distinct(s);
    let list = membership::listing(s.nodes);
    let listed = placement::assignment_listing(s.placement.assignments);
    let all = scheduler_model::healthy_workers(list, listed);
    let w = workers_of(s);
    active_workers_shape(all, scheduler_model::plan_target(s.plan));
    let slots = scheduler_model::slots(w);
    assert forall|i: int, j: int| 0 <= i < j < slots.len() implies (#[trigger] slots[i]).node_id
        != (#[trigger] slots[j]).node_id by {
        assert(w[i].node.node_id != w[j].node.node_id);
    }
}

/// Whether a state is one of a cluster with a single shard, which no node is named for twice.
pub open spec fn one_shard(s: StateModel) -> bool {
    &&& s.placement.shard_count == 1
    &&& is_registry(s.nodes)
    &&& forall|k: ShardId| #[trigger]
        s.placement.assignments.dom().contains(k) ==> k == 0 && s.placement.assignments[k].shard_id
            == 0
    &&& scene_of(s).current_replicas(0).no_duplicates()
}

spec fn holds(s: StateModel, id: Seq<char>) -> bool {
    scene_of(s).current(0) matches Some(a) && a.replicas.contains(id)
}

proof fn listing_of_one(s: StateModel)
    requires
        one_shard(s),
    ensures
        placement::assignment_listing(s.placement.assignments) == match scene_of(s).current(0) {
            Some(a) => seq![a],
            None => Seq::empty(),
        },
{
    let m = s.placement.assignments;
    let l = match scene_of(s).current(0) {
        Some(a) => seq![a],
        None => Seq::<AssignmentModel>::empty(),
    };
    if m.dom().contains(0) {
        assert(l[0].shard_id == 0);
    }
    assert(placement::lists_assignments(m, l)) by {
        assert forall|k: ShardId| #[trigger] m.dom().contains(k) implies exists|i: int|
            0 <= i < l.len() && (#[trigger] l[i]).shard_id == k by {
            assert(l[0].shard_id == k);
        }
    }
    placement::assignment_listing_is_unique(m, l, placement::assignment_listing(m));
}

spec fn all_workers(s: StateModel) -> Seq<WorkerModel> {
    scheduler_model::healthy_workers(
        membership::listing(s.nodes),
        placement::assignment_listing(s.placement.assignments),
    )
}

spec fn healthy_of(s: StateModel) -> Seq<NodeModel> {
    healthy_only(membership::listing(s.nodes))
}

/// What is known of a worker: its node is one of the healthy ones, it holds a replica where it is
/// assigned one, and leads where it should.
spec fn fits(s: StateModel, w: WorkerModel) -> bool {
    &&& healthy_of(s).contains(w.node)
    &&& w.load == if holds(s, w.node.node_id) {
        1u32
    } else {
        0u32
    }
    &&& w.leads == if scene_of(s).previous_leader(0) == Some(w.node.node_id) {
        1u32
    } else {
        0u32
    }
}

proof fn workers_facts(s: StateModel)
    requires
        one_shard(s),
    ensures
        membership::lists(s.nodes, membership::listing(s.nodes)),
        all_workers(s).len() == healthy_of(s).len(),
        forall|i: int|
            0 <= i < all_workers(s).len() ==> (#[trigger] all_workers(s)[i]).node
                == healthy_of(s)[i] && fits(s, all_workers(s)[i]),
        distinct_workers(all_workers(s)),
        distinct_workers(workers_of(s)),
        forall|i: int|
            0 <= i < workers_of(s).len() ==> all_workers(s).contains(#[trigger] workers_of(s)[i])
                && fits(s, workers_of(s)[i]),
        plan_laws::listed_once(scheduler_model::slots(workers_of(s))),
        workers_of(s).len() >= scheduler_model::plan_rf(s.plan) || workers_of(s) == all_workers(s),
{
    registries_have_listings(s.nodes);
    workers_are_distinct(s);
    listing_of_one(s);
    let list = membership::listing(s.nodes);
    let listed = placement::assignment_listing(s.placement.assignments);
    let h = healthy_of(s);
    let all = all_workers(s);
    let w = workers_of(s);
    healthy_only_shape(list);
    healthy_decide(list, listed, 0);
    workers_shape(h, listed);
    assert forall|i: int| 0 <= i < all.len() implies (#[trigger] all[i]).node == h[i] && fits(
        s,
        all[i],
    ) by {
        assert(all[i] == worker_of(h[i], listed));
        assert(h.contains(h[i]));
        let id = h[i].node_id;
        if let Some(a) = scene_of(s).current(0) {
            assert(listed.drop_last() =~= Seq::<AssignmentModel>::empty());
            assert(listed.last() == a);
            reveal_with_fuel(scheduler_model::replicas_held, 2);
            reveal_with_fuel(scheduler_model::shards_led, 2);
            named_once(a.replicas, id);
        }
    }
    assert(ids_ascend(list));
    assert forall|i: int, j: int| 0 <= i < j < all.len() implies (
    #[trigger] all[i]).node.node_id != (#[trigger] all[j]).node.node_id by {
        assert(all[i].node == h[i] && all[j].node == h[j]);
        text::text_lt_irreflexive(h[i].node_id);
    }
    let target = scheduler_model::plan_target(s.plan);
    active_workers_shape(all, target);
    assert forall|i: int| 0 <= i < w.len() implies all.contains(#[trigger] w[i]) && fits(
        s,
        w[i],
    ) by {
        let k = all.index_of(w[i]);
        assert(all[k] == w[i]);
    }
}

proof fn desired_is_planned(s: StateModel)
    requires
        one_shard(s),
    ensures
        scene_of(s).desired(workers_of(s), 0) == scene_of(s).planned(workers_of(s), 0),
{
    workers_facts(s);
    let w = workers_of(s);
    let slots = scheduler_model::slots(w);
    assert forall|i: int| 0 <= i < slots.len() implies (#[trigger] slots[i]).load <= 1 by {
        assert(fits(s, w[i]));
    }
    light_loads_stay(scene_of(s).planned(w, 0), slots);
}

proof fn replaced_workers(s: StateModel)
    requires
        one_shard(s),
    ensures
        ({
            let w = workers_of(s);
            let r = scene_of(s).replaced(w, 0);
            &&& r.len() == w.len()
            &&& forall|i: int|
                0 <= i < w.len() ==> (#[trigger] r[i]).node == w[i].node && r[i].leads == 0
        }),
{
    workers_facts(s);
    let sc = scene_of(s);
    let w = workers_of(s);
    let u = scheduler_model::unloaded(w, sc.current_replicas(0));
    let l = scheduler_model::loaded(u, sc.desired(w, 0));
    let r = sc.replaced(w, 0);
    loads_keep_nodes(w, sc.current_replicas(0));
    loads_keep_nodes(u, sc.desired(w, 0));
    assert forall|i: int| 0 <= i < w.len() implies (#[trigger] r[i]).node == w[i].node
        && r[i].leads == 0 by {
        assert(l[i].node == u[i].node);
        assert(u[i].node == w[i].node);
        assert(fits(s, w[i]));
    }
}

/// A replica as a candidate to lead, its own leadership left out.
proof fn candidate(s: StateModel, x: Seq<char>, n: NodeModel)
    requires
        one_shard(s),
        scheduler_model::worker_ids(workers_of(s)).contains(x),
        healthy_of(s).contains(n),
        n.node_id == x,
    ensures
        scheduler_model::leader_slot(scene_of(s).replaced(workers_of(s), 0), x) == (LeaderModel {
            node_id: x,
            cloud_provider: n.cloud_provider,
            region: n.region,
            leader_load: 0,
        }),
{
    workers_facts(s);
    replaced_workers(s);
    let w = workers_of(s);
    let r = scene_of(s).replaced(w, 0);
    worker_ids_shape(w, x);
    let i = choose|i: int| 0 <= i < w.len() && (#[trigger] w[i]).node.node_id == x;
    assert(r[i].node == w[i].node);
    assert forall|a: int, b: int| 0 <= a < b < r.len() implies (#[trigger] r[a]).node.node_id != (
    #[trigger] r[b]).node.node_id by {
        assert(w[a].node.node_id != w[b].node.node_id);
    }
    leader_slot_shape(r, i);
    assert(fits(s, w[i]));
    let h = healthy_of(s);
    let p = h.index_of(w[i].node);
    let q = h.index_of(n);
    healthy_only_shape(membership::listing(s.nodes));
    assert(ids_ascend(membership::listing(s.nodes)));
    assert(h[p] == w[i].node && h[q] == n);
    text::text_lt_irreflexive(x);
    if p < q {
        assert(text::text_lt(h[p].node_id, h[q].node_id));
    } else if q < p {
        assert(text::text_lt(h[q].node_id, h[p].node_id));
    }
}

/// The state after a reconciliation of one shard: the shard is assigned as wanted unless it is
/// held or stands so already, and evacuated nodes that it does not name are gone.
proof fn reconciled(s: StateModel)
    requires
        one_shard(s),
    ensures
        ({
            let sc = scene_of(s);
            let w = workers_of(s);
            let t = if !sc.held(w, 0) && sc.published(w, 0) {
                s.applied(CommandModel::AssignShard(sc.wanted(w, 0)))
            } else {
                s
            };
            s.applied_all(scheduler::reconciliation(s)) == (StateModel {
                nodes: s.nodes.remove_keys(
                    gone(membership::listing(s.nodes), t.placement.assignments),
                ),
                ..t
            })
        }),
{
    let sc = scene_of(s);
    let w = workers_of(s);
    let list = membership::listing(s.nodes);
    let a = sc.assigns(w, 1);
    let f = scheduler_model::forgets(list);
    assert(scheduler::reconciliation(s) == a + f);
    applied_in_parts(s, a, f);
    assert(sc.workers_at(w, 0) == w);
    assert(sc.assigns(w, 0) == Seq::<CommandModel>::empty());
    if !sc.held(w, 0) && sc.published(w, 0) {
        let c = CommandModel::AssignShard(sc.wanted(w, 0));
        assert(a =~= seq![c]);
        assert(a.drop_last() =~= Seq::<CommandModel>::empty());
        reveal_with_fuel(StateModel::applied_all, 2);
        assert(s.applied_all(a) == s.applied(c));
        forgets_remove(s.applied(c), list);
    } else {
        assert(a =~= Seq::<CommandModel>::empty());
        forgets_remove(s, list);
    }
}

proof fn fewer_nodes(s: StateModel, t: StateModel, gone_ids: Set<Seq<char>>)
    requires
        is_registry(s.nodes),
        t.nodes == s.nodes.remove_keys(gone_ids),
        forall|k: Seq<char>|
            gone_ids.contains(k) && #[trigger] s.nodes.dom().contains(k) ==> s.nodes[k].health
                != NodeHealth::Healthy,
    ensures
        is_registry(t.nodes),
        healthy_of(t) == healthy_of(s),
        scheduler_model::observed_leader(membership::listing(t.nodes), 0)
            == scheduler_model::observed_leader(membership::listing(s.nodes), 0),
        scheduler_model::observed_replicas(membership::listing(t.nodes), 0)
            == scheduler_model::observed_replicas(membership::listing(s.nodes), 0),
        forall|listed: Seq<AssignmentModel>|
            #![auto]
            scheduler_model::healthy_workers(membership::listing(t.nodes), listed)
                == scheduler_model::healthy_workers(membership::listing(s.nodes), listed),
{
    assert(t.nodes.dom() =~= s.nodes.dom().difference(gone_ids));
    assert(s.nodes.dom().difference(gone_ids).subset_of(s.nodes.dom()));
    vstd::set_lib::lemma_len_subset(t.nodes.dom(), s.nodes.dom());
    registries_have_listings(s.nodes);
    registries_have_listings(t.nodes);
    let a = membership::listing(s.nodes);
    let b = membership::listing(t.nodes);
    healthy_only_lists(s.nodes, a);
    healthy_only_lists(t.nodes, b);
    assert(healthy_part(t.nodes) =~= healthy_part(s.nodes));
    membership_laws::listing_is_unique(healthy_part(s.nodes), healthy_only(a), healthy_only(b));
    healthy_decide(a, Seq::empty(), 0);
    healthy_decide(b, Seq::empty(), 0);
    assert forall|listed: Seq<AssignmentModel>|
        #![auto]
        scheduler_model::healthy_workers(b, listed) == scheduler_model::healthy_workers(
            a,
            listed,
        ) by {
        healthy_decide(a, listed, 0);
        healthy_decide(b, listed, 0);
    }
}

proof fn known_before(s: StateModel, t: StateModel, gone_ids: Set<Seq<char>>, ids: Seq<Seq<char>>)
    requires
        is_registry(s.nodes),
        is_registry(t.nodes),
        t.nodes == s.nodes.remove_keys(gone_ids),
        scheduler_model::all_known(membership::listing(t.nodes), ids),
    ensures
        scheduler_model::all_known(membership::listing(s.nodes), ids),
{
    registries_have_listings(s.nodes);
    registries_have_listings(t.nodes);
    let a = membership::listing(s.nodes);
    let b = membership::listing(t.nodes);
    assert forall|i: int| 0 <= i < ids.len() implies scheduler_model::known(
        a,
        #[trigger] ids[i],
    ) by {
        assert(scheduler_model::known(b, ids[i]));
        let k = choose|k: int| 0 <= k < b.len() && (#[trigger] b[k]).node_id == ids[i];
        assert(t.nodes.dom().contains(b[k].node_id));
        assert(s.nodes.dom().contains(ids[i]));
    }
}

proof fn unchanged_scene(s: StateModel, t: StateModel, gone_ids: Set<Seq<char>>)
    requires
        one_shard(s),
        t == (StateModel { nodes: s.nodes.remove_keys(gone_ids), ..s }),
        forall|k: Seq<char>|
            gone_ids.contains(k) && #[trigger] s.nodes.dom().contains(k) ==> s.nodes[k].health
                != NodeHealth::Healthy,
        scene_of(s).held(workers_of(s), 0) || !scene_of(s).published(workers_of(s), 0),
    ensures
        one_shard(t),
        scene_of(t).held(workers_of(t), 0) || !scene_of(t).published(workers_of(t), 0),
{
    fewer_nodes(s, t, gone_ids);
    let a = scene_of(s);
    let b = scene_of(t);
    let w = workers_of(s);
    let listed = placement::assignment_listing(s.placement.assignments);
    assert(scheduler_model::healthy_workers(membership::listing(t.nodes), listed)
        == scheduler_model::healthy_workers(membership::listing(s.nodes), listed));
    assert(workers_of(t) == w);
    assert(b.current(0) == a.current(0));
    assert(b.current_replicas(0) == a.current_replicas(0));
    assert(b.planned(w, 0) == a.planned(w, 0));
    assert(b.desired(w, 0) == a.desired(w, 0));
    assert(b.replaced(w, 0) == a.replaced(w, 0));
    assert(b.leader(w, 0) == a.leader(w, 0));
    assert(b.wanted(w, 0) == a.wanted(w, 0));
    if !b.held(w, 0) {
        known_before(s, t, gone_ids, b.current_replicas(0));
    }
}

/// What was assigned is on workers, and none of it is named twice.
proof fn assigned_set(s: StateModel)
    requires
        one_shard(s),
    ensures
        ({
            let sc = scene_of(s);
            let w = workers_of(s);
            let d = sc.wanted(w, 0).replicas;
            &&& d == sc.planned(w, 0)
            &&& d.no_duplicates()
            &&& d.len() <= sc.rf
            &&& forall|i: int|
                0 <= i < d.len() ==> plan::slot_of(
                    scheduler_model::slots(w),
                    #[trigger] d[i],
                ) is Some && scheduler_model::worker_ids(w).contains(d[i])
            &&& d.len() < sc.rf ==> w == all_workers(s) && forall|i: int|
                0 <= i < w.len() ==> d.contains((#[trigger] w[i]).node.node_id)
        }),
{
    let sc = scene_of(s);
    let w = workers_of(s);
    let slots = scheduler_model::slots(w);
    let d = sc.planned(w, 0);
    let rf = sc.rf as int;
    workers_facts(s);
    desired_is_planned(s);
    plan_laws::plan_names_nodes_once(sc.current_replicas(0), slots, rf);
    plan_laws::plan_size(sc.current_replicas(0), slots, rf);
    assert forall|i: int| 0 <= i < d.len() implies plan::slot_of(slots, #[trigger] d[i]) is Some
        && scheduler_model::worker_ids(w).contains(d[i]) by {
        plan_laws::plan_names_candidates(sc.current_replicas(0), slots, rf, i);
        plan_laws::slot_of_is_listed(slots, d[i]);
        let k = choose|k: int| 0 <= k < slots.len() && (#[trigger] slots[k]).node_id == d[i];
        worker_ids_shape(w, d[i]);
        assert(w[k].node.node_id == d[i]);
    }
    if d.len() < rf {
        plan_laws::plan_is_a_fixed_point(sc.current_replicas(0), slots, rf);
        plan_laws::kept_all(d, slots);
        plan_laws::filled_shape(d, plan::domains(d, slots), plan::others(slots, d), rf);
        plan_laws::others_are_candidates(slots, d);
        assert(plan::others(slots, d).len() == 0);
        assert forall|i: int| 0 <= i < w.len() implies d.contains(
            (#[trigger] w[i]).node.node_id,
        ) by {
            assert(slots[i].node_id == w[i].node.node_id);
            if !d.contains(slots[i].node_id) {
                assert(plan::others(slots, d).contains(slots[i]));
            }
        }
        everybody_among(w, d);
        among_is_bounded(w, d);
    }
}

proof fn settled_scene(s: StateModel, t: StateModel, gone_ids: Set<Seq<char>>)
    requires
        one_shard(s),
        t == (StateModel {
            nodes: s.nodes.remove_keys(gone_ids),
            ..s.applied(CommandModel::AssignShard(scene_of(s).wanted(workers_of(s), 0)))
        }),
        forall|k: Seq<char>|
            gone_ids.contains(k) && #[trigger] s.nodes.dom().contains(k) ==> s.nodes[k].health
                != NodeHealth::Healthy,
    ensures
        one_shard(t),
        !scene_of(t).published(workers_of(t), 0),
{
    fewer_nodes(s, t, gone_ids);
    let a = scene_of(s);
    let b = scene_of(t);
    let w = workers_of(s);
    let asg = a.wanted(w, 0);
    let d = asg.replicas;
    assigned_set(s);
    workers_facts(s);
    assert(t.placement.assignments == s.placement.assignments.insert(0, asg));
    assert(b.current(0) == Some(asg));
    assert(b.current_replicas(0) == d);
    assert(one_shard(t));
    workers_facts(t);
    let v = workers_of(t);
    let all = all_workers(t);
    let h = healthy_of(s);
    let slots = scheduler_model::slots(v);
    let target = scheduler_model::plan_target(s.plan);
    let rf = a.rf as int;
    assert(b.rf == a.rf);
    assert forall|i: int| 0 <= i < all.len() implies (#[trigger] all[i]).load == if d.contains(
        all[i].node.node_id,
    ) {
        1u32
    } else {
        0u32
    } by {
        assert(fits(t, all[i]));
    }
    // Whoever was assigned is a worker again, and a candidate to lead as before.
    assert forall|i: int| 0 <= i < d.len() implies plan::slot_of(slots, #[trigger] d[i]) is Some
        && scheduler_model::worker_ids(v).contains(d[i]) && scheduler_model::leader_slot(
        b.replaced(v, 0),
        d[i],
    ) == scheduler_model::leader_slot(a.replaced(w, 0), d[i]) by {
        let x = d[i];
        assert(scheduler_model::worker_ids(w).contains(x));
        worker_ids_shape(w, x);
        let k = choose|k: int| 0 <= k < w.len() && (#[trigger] w[k]).node.node_id == x;
        assert(fits(s, w[k]));
        let n = w[k].node;
        let p = h.index_of(n);
        assert(all[p].node == h[p]);
        let u = all[p];
        assert(d.contains(x));
        if all.len() > target {
            holders_rank_first(all, d, u);
            assert(all[p].node.node_id == u.node.node_id);
            among_is_bounded(all, d);
            top_shape(all, all, target);
            assert(scheduler_model::rank(all, all[p]) < target);
        }
        assert(v.contains(u)) by {
            if all.len() <= target {
                assert(v == all);
                assert(all[p] == u);
            }
        }
        let q = v.index_of(u);
        worker_ids_shape(v, x);
        assert(v[q].node.node_id == x);
        assert(slots[q].node_id == x);
        plan_laws::slot_of_is_listed(slots, x);
        candidate(s, x, n);
        candidate(t, x, n);
    }
    // The plan keeps them, and has no room or nobody left to add.
    plan_laws::kept_all(d, slots);
    plan_laws::others_are_candidates(slots, d);
    if d.len() < rf {
        if plan::others(slots, d).len() > 0 {
            let o = plan::others(slots, d)[0];
            assert(slots.contains(o));
            let k = slots.index_of(o);
            assert(slots[k] == o);
            assert(v[k].node.node_id == o.node_id);
            assert(fits(t, v[k]));
            let p = h.index_of(v[k].node);
            assert(h[p] == v[k].node);
            assert(all_workers(s)[p].node == h[p]);
            assert(w == all_workers(s));
            assert(d.contains(w[p].node.node_id));
        }
    }
    assert(b.planned(v, 0) == d);
    desired_is_planned(t);
    assert(b.desired(v, 0) == d);
    // The same candidates give the same leader.
    let sa = scheduler_model::leader_slots(a.replaced(w, 0), d);
    let sb = scheduler_model::leader_slots(b.replaced(v, 0), d);
    assert(sa =~= sb) by {
        assert forall|i: int| 0 <= i < d.len() implies sa[i] == sb[i] by {
            assert(scheduler_model::worker_ids(v).contains(d[i]));
        }
    }
    let ia = scheduler_model::worker_ids(w);
    let ib = scheduler_model::worker_ids(v);
    let observed = scheduler_model::observed_leader(a.nodes, 0);
    assert(observed == scheduler_model::observed_leader(b.nodes, 0));
    assert(a.policy(0) == b.policy(0));
    assert(a.desired(w, 0) == d);
    assert forall|i: int| 0 <= i < sa.len() implies ia.contains((#[trigger] sa[i]).node_id)
        == ib.contains(sa[i].node_id) && sa[i].node_id == d[i] by {
        assert(ib.contains(d[i]));
        worker_ids_shape(w, d[i]);
        let k = choose|k: int| 0 <= k < w.len() && (#[trigger] w[k]).node.node_id == d[i];
        assert(fits(s, w[k]));
        candidate(s, d[i], w[k].node);
    }
    same_candidates_same_leader(sa, d, ia, ib, a.policy(0), observed);
    leadership::picked_leader_can_lead(sa, d, ia, a.policy(0), observed);
    leadership::picked_leader_can_lead(sa, d, ib, a.policy(0), observed);
    let pick = leadership::best_leader(sa, d, ia, a.policy(0), observed);
    if pick is None && d.len() > 0 {
        assert(sa[0].node_id == d[0]);
        assert(d.contains(d[0]));
        assert(leadership::can_lead(sa[0].node_id, d, ia));
    }
    assert(b.leader(v, 0) == a.leader(w, 0));
}

/// Repeated reconciliation of a cluster with one shard settles at once: a second reconciliation
/// changes nothing. It publishes no new generation, does not move leadership because of what the
/// shard itself adds to a node's load, and removes nobody.
pub proof fn one_shard_settles(s: StateModel)
    requires
        one_shard(s),
    ensures
        ({
            let t = s.applied_all(scheduler::reconciliation(s));
            &&& one_shard(t)
            &&& t.applied_all(scheduler::reconciliation(t)) == t
        }),
{
    let sc = scene_of(s);
    let w = workers_of(s);
    let list = membership::listing(s.nodes);
    let publishes = !sc.held(w, 0) && sc.published(w, 0);
    let mid = if publishes {
        s.applied(CommandModel::AssignShard(sc.wanted(w, 0)))
    } else {
        s
    };
    let out = gone(list, mid.placement.assignments);
    let t = s.applied_all(scheduler::reconciliation(s));
    reconciled(s);
    registries_have_listings(s.nodes);
    assert forall|k: Seq<char>|
        out.contains(k) && #[trigger] s.nodes.dom().contains(k) implies s.nodes[k].health
        != NodeHealth::Healthy by {
        let i = choose|i: int|
            0 <= i < list.len() && (#[trigger] list[i]).node_id == k && evacuated(list[i]);
        assert(s.nodes[list[i].node_id] == list[i]);
    }
    if publishes {
        settled_scene(s, t, out);
    } else {
        unchanged_scene(s, t, out);
    }
    reconciled(t);
    registries_have_listings(t.nodes);
    let again = gone(membership::listing(t.nodes), t.placement.assignments);
    assert forall|k: Seq<char>| !(#[trigger] t.nodes.dom().contains(k) && again.contains(k)) by {
        if t.nodes.dom().contains(k) && again.contains(k) {
            let l = membership::listing(t.nodes);
            let i = choose|i: int|
                0 <= i < l.len() && (#[trigger] l[i]).node_id == k && evacuated(l[i]);
            assert(t.nodes[l[i].node_id] == l[i]);
            assert(s.nodes.dom().contains(k));
            let j = choose|j: int| 0 <= j < list.len() && (#[trigger] list[j]).node_id == k;
            assert(s.nodes[list[j].node_id] == list[j]);
            assert(list[j] == l[i]);
            assert(out.contains(k));
        }
    }
    assert(t.nodes.remove_keys(again) =~= t.nodes);
}

proof fn others_and_among(w: Seq<WorkerModel>, ids: Seq<Seq<char>>)
    ensures
        plan::others(scheduler_model::slots(w), ids).len() + workers_among(w, ids) == w.len(),
    decreases w.len(),
{
    let slots = scheduler_model::slots(w);
    if w.len() > 0 {
        others_and_among(w.drop_last(), ids);
        assert(slots.drop_last() =~= scheduler_model::slots(w.drop_last()));
        assert(slots.last().node_id == w.last().node.node_id);
    }
}

/// With as many workers as the replication factor asks for, a shard whose replicas have all been
/// heard from gets a full set of replicas, all of them on workers: a dead node is replaced.
pub proof fn enough_workers_restore_the_factor(
    scene: Scene,
    workers: Seq<WorkerModel>,
    shard: ShardId,
)
    requires
        distinct_workers(workers),
        workers.len() >= scene.rf,
        scheduler_model::all_known(scene.nodes, scene.current_replicas(shard)),
    ensures
        !scene.held(workers, shard),
        scene.wanted(workers, shard).replicas.len() == scene.rf,
        forall|k: int|
            0 <= k < scene.rf ==> scheduler_model::worker_ids(workers).contains(
                #[trigger] scene.wanted(workers, shard).replicas[k],
            ),
{
    let slots = scheduler_model::slots(workers);
    let kept = plan::kept(scene.current_replicas(shard), slots);
    others_and_among(workers, kept);
    among_is_bounded(workers, kept);
    plan_laws::plan_size(scene.current_replicas(shard), slots, scene.rf as int);
    scheduler_laws::rebalancing_moves_at_most_one(scene.planned(workers, shard), slots);
    let w = scene.wanted(workers, shard).replicas;
    assert forall|k: int| 0 <= k < scene.rf implies scheduler_model::worker_ids(workers).contains(
        #[trigger] w[k],
    ) by {
        scheduler_laws::replicas_are_on_workers(scene, workers, shard, k);
    }
}

} // verus!
