//! What a reconciliation decides, said of the nodes, the assignments and the commands: what is
//! reported, who may move, what is held, and what is published.

use crate::cluster::{CommandModel, StateModel};
use crate::membership;
use crate::model::{NodeHealth, NodeModel, ShardId};
use crate::plan;
use crate::plan::SlotModel;
use crate::plan_laws;
use crate::plan_meaning;
use crate::scheduler;
use crate::scheduler_model;
use crate::scheduler_model::{Scene, WorkerModel};
use crate::scheduler_stability;
use crate::text;
use vstd::prelude::*;

verus! {

/// The leader that is reported for a shard is the last of the healthy nodes that claim it.
pub proof fn the_last_claim_counts(nodes: Seq<NodeModel>, shard: ShardId)
    ensures
        match scheduler_model::observed_leader(nodes, shard) {
            Some(id) => exists|i: int|
                #![trigger nodes[i]]
                0 <= i < nodes.len() && nodes[i].node_id == id && nodes[i].health
                    == NodeHealth::Healthy && nodes[i].leading_shards.contains(shard)
                    && forall|j: int|
                    i < j < nodes.len() && (#[trigger] nodes[j]).health == NodeHealth::Healthy
                        ==> !nodes[j].leading_shards.contains(shard),
            None => forall|j: int|
                0 <= j < nodes.len() && (#[trigger] nodes[j]).health == NodeHealth::Healthy
                    ==> !nodes[j].leading_shards.contains(shard),
        },
    decreases nodes.len(),
{
    if nodes.len() > 0 {
        let rest = nodes.drop_last();
        let last = nodes[nodes.len() - 1];
        the_last_claim_counts(rest, shard);
        if !(last.health == NodeHealth::Healthy && last.leading_shards.contains(shard)) {
            match scheduler_model::observed_leader(rest, shard) {
                Some(id) => {
                    let i = choose|i: int|
                        #![trigger rest[i]]
                        0 <= i < rest.len() && rest[i].node_id == id && rest[i].health
                            == NodeHealth::Healthy && rest[i].leading_shards.contains(shard)
                            && forall|j: int|
                            i < j < rest.len() && (#[trigger] rest[j]).health
                                == NodeHealth::Healthy ==> !rest[j].leading_shards.contains(shard);
                    assert(nodes[i] == rest[i]);
                    assert forall|j: int|
                        i < j < nodes.len() && (#[trigger] nodes[j]).health
                            == NodeHealth::Healthy implies !nodes[j].leading_shards.contains(
                        shard,
                    ) by {
                        if j < rest.len() {
                            assert(rest[j] == nodes[j]);
                        }
                    }
                },
                None => {
                    assert forall|j: int|
                        0 <= j < nodes.len() && (#[trigger] nodes[j]).health
                            == NodeHealth::Healthy implies !nodes[j].leading_shards.contains(
                        shard,
                    ) by {
                        if j < rest.len() {
                            assert(rest[j] == nodes[j]);
                        }
                    }
                },
            }
        } else {
            assert(nodes[nodes.len() - 1].node_id == last.node_id);
        }
    }
}

proof fn hosting_contains(
    before: Seq<Seq<char>>,
    id: Seq<char>,
    hosted: Seq<ShardId>,
    shard: ShardId,
)
    ensures
        ({
            let h = scheduler_model::hosting(before, id, hosted, shard);
            &&& before.is_prefix_of(h)
            &&& forall|k: int| before.len() <= k < h.len() ==> #[trigger] h[k] == id
            &&& h.len() - before.len() == hosted.filter(|s: ShardId| s == shard).len()
        }),
    decreases hosted.len(),
{
    reveal(Seq::filter);
    if hosted.len() > 0 {
        hosting_contains(before, id, hosted.drop_last(), shard);
    }
}

/// The replicas that are reported for a shard are exactly the healthy nodes that claim to host it,
/// in the order of the nodes, each as often as it claims it.
pub proof fn reported_replicas_are_claimed(nodes: Seq<NodeModel>, shard: ShardId, id: Seq<char>)
    ensures
        scheduler_model::observed_replicas(nodes, shard).contains(id) <==> exists|i: int|
            0 <= i < nodes.len() && (#[trigger] nodes[i]).node_id == id && nodes[i].health
                == NodeHealth::Healthy && nodes[i].hosted_shards.contains(shard),
        nodes.len() > 0 ==> ({
            let before = scheduler_model::observed_replicas(nodes.drop_last(), shard);
            let now = scheduler_model::observed_replicas(nodes, shard);
            &&& before.is_prefix_of(now)
            &&& now.len() - before.len() == if nodes.last().health == NodeHealth::Healthy {
                nodes.last().hosted_shards.filter(|s: ShardId| s == shard).len()
            } else {
                0
            }
        }),
    decreases nodes.len(),
{
    reveal(Seq::filter);
    if nodes.len() > 0 {
        let rest = nodes.drop_last();
        let last = nodes[nodes.len() - 1];
        let before = scheduler_model::observed_replicas(rest, shard);
        let now = scheduler_model::observed_replicas(nodes, shard);
        reported_replicas_are_claimed(rest, shard, id);
        hosting_contains(before, last.node_id, last.hosted_shards, shard);
        if before.contains(id) {
            let k = choose|k: int| 0 <= k < before.len() && before[k] == id;
            assert(now[k] == id);
            let i = choose|i: int|
                0 <= i < rest.len() && (#[trigger] rest[i]).node_id == id && rest[i].health
                    == NodeHealth::Healthy && rest[i].hosted_shards.contains(shard);
            assert(nodes[i] == rest[i]);
        }
        claims_are_counted(last.hosted_shards, shard);
        if now.contains(id) && !before.contains(id) {
            let k = choose|k: int| 0 <= k < now.len() && now[k] == id;
            if k < before.len() {
                assert(before[k] == id);
            }
            assert(nodes[nodes.len() - 1].node_id == id);
        }
        if exists|i: int|
            0 <= i < nodes.len() && (#[trigger] nodes[i]).node_id == id && nodes[i].health
                == NodeHealth::Healthy && nodes[i].hosted_shards.contains(shard) {
            let i = choose|i: int|
                0 <= i < nodes.len() && (#[trigger] nodes[i]).node_id == id && nodes[i].health
                    == NodeHealth::Healthy && nodes[i].hosted_shards.contains(shard);
            if i < rest.len() {
                assert(rest[i] == nodes[i]);
                assert(before.contains(id));
            } else {
                assert(now[before.len() as int] == id);
            }
        }
    }
}

proof fn claims_are_counted(hosted: Seq<ShardId>, shard: ShardId)
    ensures
        hosted.filter(|s: ShardId| s == shard).len() > 0 <==> hosted.contains(shard),
    decreases hosted.len(),
{
    reveal(Seq::filter);
    if hosted.len() > 0 {
        let rest = hosted.drop_last();
        claims_are_counted(rest, shard);
        if rest.contains(shard) {
            let i = choose|i: int| 0 <= i < rest.len() && rest[i] == shard;
            assert(hosted[i] == shard);
        }
        if hosted.last() == shard {
            assert(hosted[hosted.len() - 1] == shard);
        } else if hosted.contains(shard) {
            let i = choose|i: int| 0 <= i < hosted.len() && hosted[i] == shard;
            assert(rest[i] == shard);
        }
    }
}

/// The removals are exactly the draining nodes that report hosting nothing, in order.
pub proof fn evacuated_nodes_are_removed(nodes: Seq<NodeModel>)
    ensures
        scheduler_model::forgets(nodes) == nodes.filter(
            |n: NodeModel| n.health == NodeHealth::Draining && n.hosted_shards.len() == 0,
        ).map_values(|n: NodeModel| CommandModel::ForgetNode(n.node_id)),
    decreases nodes.len(),
{
    reveal(Seq::filter);
    let gone = |n: NodeModel| n.health == NodeHealth::Draining && n.hosted_shards.len() == 0;
    let named = |n: NodeModel| CommandModel::ForgetNode(n.node_id);
    if nodes.len() > 0 {
        let rest = nodes.drop_last();
        evacuated_nodes_are_removed(rest);
        if gone(nodes.last()) {
            assert(nodes.filter(gone).map_values(named) =~= rest.filter(gone).map_values(
                named,
            ).push(named(nodes.last())));
        }
    } else {
        assert(nodes.filter(gone).map_values(named) =~= Seq::empty());
    }
}

/// Whether candidate `s` is the right one to take a replica over: it holds none, and no other
/// candidate that holds none is less loaded, or as little loaded with a lower id.
pub open spec fn is_lightest_other(
    replicas: Seq<Seq<char>>,
    healthy: Seq<SlotModel>,
    s: int,
) -> bool {
    &&& 0 <= s < healthy.len()
    &&& !replicas.contains(healthy[s].node_id)
    &&& forall|j: int|
        0 <= j < healthy.len() && !replicas.contains((#[trigger] healthy[j]).node_id) ==> {
            &&& healthy[s].load <= healthy[j].load
            &&& healthy[s].load == healthy[j].load ==> healthy[s].node_id == healthy[j].node_id
                || text::text_lt(healthy[s].node_id, healthy[j].node_id)
        }
}

/// Whether the replica at `v` may move to candidate `s`: it is on a candidate that is loaded by two
/// more at least, and the move costs no failure domain, because both are in the same one or no
/// other replica is in that of `s`.
pub open spec fn may_move(
    replicas: Seq<Seq<char>>,
    healthy: Seq<SlotModel>,
    v: int,
    s: int,
) -> bool {
    exists|r: int|
        0 <= r < healthy.len() && (#[trigger] healthy[r]).node_id == replicas[v] && healthy[r].load
            >= healthy[s].load + 2 && (healthy[r].domain == healthy[s].domain || forall|i: int|
            0 <= i < replicas.len() && i != v ==> !plan_meaning::stands_in(
                healthy,
                #[trigger] replicas[i],
                healthy[s].domain,
            ))
}

/// Whether some replicas are the right ones after the load is evened out: one replica that may has
/// moved to the lightest other candidate, and no other that may was more loaded, nor as much
/// loaded and further in front; or none may move, and all are where they were.
pub open spec fn right_rebalance(
    r: Seq<Seq<char>>,
    replicas: Seq<Seq<char>>,
    healthy: Seq<SlotModel>,
) -> bool {
    ||| r == replicas && forall|v: int, s: int|
        #![trigger may_move(replicas, healthy, v, s)]
        0 <= v < replicas.len() && is_lightest_other(replicas, healthy, s) ==> !may_move(
            replicas,
            healthy,
            v,
            s,
        )
    ||| exists|v: int, s: int|
        #![trigger may_move(replicas, healthy, v, s)]
        {
            &&& 0 <= v < replicas.len()
            &&& is_lightest_other(replicas, healthy, s)
            &&& may_move(replicas, healthy, v, s)
            &&& r == replicas.update(v, healthy[s].node_id)
            &&& forall|u: int, a: u32, b: u32|
                #![trigger plan_meaning::weighs(healthy, replicas[u], a), plan_meaning::weighs(healthy, replicas[v], b)]
                0 <= u < replicas.len() && may_move(replicas, healthy, u, s)
                    && plan_meaning::weighs(healthy, replicas[u], a) && plan_meaning::weighs(
                    healthy,
                    replicas[v],
                    b,
                ) ==> a < b || (a == b && v <= u)
        }
}

proof fn moves_agree(replicas: Seq<Seq<char>>, healthy: Seq<SlotModel>, v: int, s: int)
    requires
        plan_laws::listed_once(healthy),
        0 <= v < replicas.len(),
        0 <= s < healthy.len(),
    ensures
        may_move(replicas, healthy, v, s) == scheduler_model::may_give_way(
            replicas,
            healthy,
            v,
            healthy[s],
        ),
        may_move(replicas, healthy, v, s) ==> plan_meaning::weighs(
            healthy,
            replicas[v],
            plan::load_of(healthy, replicas[v]),
        ),
        forall|l: u32| #[trigger]
            plan_meaning::weighs(healthy, replicas[v], l) ==> l == plan::load_of(
                healthy,
                replicas[v],
            ),
{
    plan_laws::slot_of_is_listed(healthy, replicas[v]);
    let others = replicas.remove(v);
    plan_meaning::used_is_not_fresh(healthy, others, healthy[s].domain);
    let fresh = forall|i: int|
        0 <= i < replicas.len() && i != v ==> !plan_meaning::stands_in(
            healthy,
            #[trigger] replicas[i],
            healthy[s].domain,
        );
    assert(fresh == plan_meaning::is_fresh(healthy, others, healthy[s].domain)) by {
        if fresh {
            assert forall|i: int| 0 <= i < others.len() implies !plan_meaning::stands_in(
                healthy,
                #[trigger] others[i],
                healthy[s].domain,
            ) by {
                assert(others[i] == replicas[if i < v { i } else { i + 1 }]);
            }
        }
        if plan_meaning::is_fresh(healthy, others, healthy[s].domain) {
            assert forall|i: int| 0 <= i < replicas.len() && i != v implies !plan_meaning::stands_in(
                healthy,
                #[trigger] replicas[i],
                healthy[s].domain,
            ) by {
                assert(others[if i < v { i } else { i - 1 }] == replicas[i]);
            }
        }
    }
    if plan::slot_of(healthy, replicas[v]) is Some {
        let r = choose|r: int|
            0 <= r < healthy.len() && (#[trigger] healthy[r]).node_id == replicas[v];
        plan_laws::slot_of_listed_once(healthy, r);
        assert(healthy[r].node_id == replicas[v]);
    }
    if may_move(replicas, healthy, v, s) {
        let r = choose|r: int|
            0 <= r < healthy.len() && (#[trigger] healthy[r]).node_id == replicas[v]
                && healthy[r].load >= healthy[s].load + 2 && (healthy[r].domain
                == healthy[s].domain || forall|i: int|
                0 <= i < replicas.len() && i != v ==> !plan_meaning::stands_in(
                    healthy,
                    #[trigger] replicas[i],
                    healthy[s].domain,
                ));
        plan_laws::slot_of_listed_once(healthy, r);
    }
    assert forall|l: u32| #[trigger] plan_meaning::weighs(healthy, replicas[v], l) implies l
        == plan::load_of(healthy, replicas[v]) by {
        let r = choose|r: int|
            0 <= r < healthy.len() && (#[trigger] healthy[r]).node_id == replicas[v]
                && healthy[r].load == l;
        plan_laws::slot_of_listed_once(healthy, r);
    }
}

proof fn giving_way_is_right(
    replicas: Seq<Seq<char>>,
    healthy: Seq<SlotModel>,
    s: SlotModel,
    n: int,
)
    requires
        0 <= n <= replicas.len(),
    ensures
        match scheduler_model::giving_way(replicas, healthy, s, n) {
            Some(v) => {
                &&& 0 <= v < n
                &&& scheduler_model::may_give_way(replicas, healthy, v, s)
                &&& forall|u: int|
                    #![trigger scheduler_model::may_give_way(replicas, healthy, u, s)]
                    0 <= u < n && scheduler_model::may_give_way(replicas, healthy, u, s) ==> {
                        ||| plan::load_of(healthy, replicas[u]) < plan::load_of(
                            healthy,
                            replicas[v],
                        )
                        ||| plan::load_of(healthy, replicas[u]) == plan::load_of(
                            healthy,
                            replicas[v],
                        ) && v <= u
                    }
            },
            None => forall|u: int|
                #![trigger scheduler_model::may_give_way(replicas, healthy, u, s)]
                0 <= u < n ==> !scheduler_model::may_give_way(replicas, healthy, u, s),
        },
    decreases n,
{
    if n > 0 {
        giving_way_is_right(replicas, healthy, s, n - 1);
    }
}

/// Evening the load out moves the right replica to the right candidate, wherever one may move.
pub proof fn rebalancing_is_right(replicas: Seq<Seq<char>>, healthy: Seq<SlotModel>)
    requires
        plan_laws::listed_once(healthy),
    ensures
        right_rebalance(scheduler_model::rebalanced(replicas, healthy), replicas, healthy),
{
    let rest = plan::others(healthy, replicas);
    let r = scheduler_model::rebalanced(replicas, healthy);
    plan_laws::others_are_candidates(healthy, replicas);
    if rest.len() == 0 {
        assert forall|v: int, s: int|
            #![trigger may_move(replicas, healthy, v, s)]
            0 <= v < replicas.len() && is_lightest_other(replicas, healthy, s) implies !may_move(
            replicas,
            healthy,
            v,
            s,
        ) by {
            assert(rest.contains(healthy[s]));
        }
    } else {
        plan::best_in_range(rest, Set::empty());
        let b = plan::best(rest, Set::empty());
        assert(healthy.contains(rest[b]));
        let s = choose|s: int| 0 <= s < healthy.len() && healthy[s] == rest[b];
        assert(is_lightest_other(replicas, healthy, s)) by {
            assert forall|j: int|
                0 <= j < healthy.len() && !replicas.contains(
                    (#[trigger] healthy[j]).node_id,
                ) implies healthy[s].load <= healthy[j].load && (healthy[s].load == healthy[j].load
                ==> healthy[s].node_id == healthy[j].node_id || text::text_lt(
                healthy[s].node_id,
                healthy[j].node_id,
            )) by {
                assert(rest.contains(healthy[j]));
                let x = choose|x: int| 0 <= x < rest.len() && rest[x] == healthy[j];
                plan_meaning::pick_is_fresh_light_and_low(rest, Set::empty(), x);
            }
        }
        giving_way_is_right(replicas, healthy, healthy[s], replicas.len() as int);
        match scheduler_model::giving_way(
            replicas,
            healthy,
            healthy[s],
            replicas.len() as int,
        ) {
            Some(v) => {
                moves_agree(replicas, healthy, v, s);
                assert forall|u: int, a: u32, c: u32|
                    #![trigger plan_meaning::weighs(healthy, replicas[u], a), plan_meaning::weighs(healthy, replicas[v], c)]
                    0 <= u < replicas.len() && may_move(replicas, healthy, u, s)
                        && plan_meaning::weighs(healthy, replicas[u], a)
                        && plan_meaning::weighs(healthy, replicas[v], c) implies a < c || (a == c
                    && v <= u) by {
                    moves_agree(replicas, healthy, u, s);
                }
                assert(may_move(replicas, healthy, v, s));
            },
            None => {
                assert forall|v: int, t: int|
                    #![trigger may_move(replicas, healthy, v, t)]
                    0 <= v < replicas.len() && is_lightest_other(
                        replicas,
                        healthy,
                        t,
                    ) implies !may_move(replicas, healthy, v, t) by {
                    lightest_is_one(replicas, healthy, s, t);
                    moves_agree(replicas, healthy, v, s);
                }
            },
        }
    }
}

proof fn lightest_is_one(replicas: Seq<Seq<char>>, healthy: Seq<SlotModel>, s: int, t: int)
    requires
        plan_laws::listed_once(healthy),
        is_lightest_other(replicas, healthy, s),
        is_lightest_other(replicas, healthy, t),
    ensures
        s == t,
{
    let (a, b) = (healthy[s].node_id, healthy[t].node_id);
    if a != b {
        text::text_lt_transitive(a, b, a);
        text::text_lt_irreflexive(a);
    }
    if s < t {
        assert(healthy[s].node_id != healthy[t].node_id);
    } else if t < s {
        assert(healthy[t].node_id != healthy[s].node_id);
    }
}

/// A shard is held exactly where one of its replicas is on a node that is not known, or where fewer
/// replicas than it has, and fewer than the replication factor, could be placed.
pub proof fn held_is_incomplete(scene: Scene, workers: Seq<WorkerModel>, shard: ShardId)
    ensures
        scene.held(workers, shard) <==> {
            ||| exists|i: int|
                0 <= i < scene.current_replicas(shard).len() && forall|n: int|
                    0 <= n < scene.nodes.len() ==> (#[trigger] scene.nodes[n]).node_id
                        != #[trigger] scene.current_replicas(shard)[i]
            ||| scene.planned(workers, shard).len() < scene.current_replicas(shard).len()
                && scene.planned(workers, shard).len() < scene.rf
        },
{
    let now = scene.current_replicas(shard);
    if !scheduler_model::all_known(scene.nodes, now) {
        let i = choose|i: int|
            0 <= i < now.len() && !scheduler_model::known(scene.nodes, #[trigger] now[i]);
        assert forall|n: int| 0 <= n < scene.nodes.len() implies (#[trigger] scene.nodes[n]).node_id
            != #[trigger] now[i] by {
            if scene.nodes[n].node_id == now[i] {
                assert(scheduler_model::known(scene.nodes, now[i]));
            }
        }
    }
    if exists|i: int|
        0 <= i < now.len() && forall|n: int|
            0 <= n < scene.nodes.len() ==> (#[trigger] scene.nodes[n]).node_id
                != #[trigger] now[i] {
        let i = choose|i: int|
            0 <= i < now.len() && forall|n: int|
                0 <= n < scene.nodes.len() ==> (#[trigger] scene.nodes[n]).node_id
                    != #[trigger] now[i];
        if scheduler_model::known(scene.nodes, now[i]) {
            let n = choose|n: int|
                0 <= n < scene.nodes.len() && (#[trigger] scene.nodes[n]).node_id == now[i];
            assert(scene.nodes[n].node_id == now[i]);
        }
        assert(!scheduler_model::known(scene.nodes, now[i]));
    }
}

/// Whether replicas follow from a plan: evened out where an assigned shard is at its plan, and as
/// planned otherwise.
pub open spec fn settles_at(
    replicas: Seq<Seq<char>>,
    planned: Seq<Seq<char>>,
    current: Seq<Seq<char>>,
    assigned: bool,
    slots: Seq<SlotModel>,
) -> bool {
    if assigned && current == planned {
        right_rebalance(replicas, planned, slots)
    } else {
        replicas == planned
    }
}

/// The replicas that a shard's plan starts from: the assigned ones or, where there is no assignment,
/// the reported ones.
pub open spec fn starting_replicas(scene: Scene, shard: ShardId) -> Seq<Seq<char>> {
    if scene.assignments.dom().contains(shard) {
        scene.assignments[shard].replicas
    } else {
        scheduler_model::observed_replicas(scene.nodes, shard)
    }
}

/// What a shard should have: the replicas that placement asks for, evened out only where an assigned
/// shard is where placement wants it; and the region and the cloud its policy asks for.
pub proof fn wanted_follows_the_plan(scene: Scene, workers: Seq<WorkerModel>, shard: ShardId)
    requires
        plan_laws::listed_once(scheduler_model::slots(workers)),
    ensures
        ({
            let slots = scheduler_model::slots(workers);
            let w = scene.wanted(workers, shard);
            &&& w.shard_id == shard
            &&& exists|p: Seq<Seq<char>>| #[trigger]
                plan_meaning::right_plan(
                    p,
                    starting_replicas(scene, shard),
                    slots,
                    scene.rf as int,
                ) && settles_at(
                    w.replicas,
                    p,
                    starting_replicas(scene, shard),
                    scene.assignments.dom().contains(shard),
                    slots,
                )
            &&& w.preferred_region == if scene.policies.dom().contains(shard) {
                scene.policies[shard].home_region
            } else {
                None
            }
            &&& w.preferred_cloud_provider == if scene.policies.dom().contains(shard) {
                scene.policies[shard].preferred_cloud_provider
            } else {
                None
            }
        }),
{
    let slots = scheduler_model::slots(workers);
    let p = scene.planned(workers, shard);
    let current = starting_replicas(scene, shard);
    assert(scene.current_replicas(shard) == current);
    plan_meaning::plan_is_right(current, slots, scene.rf as int);
    rebalancing_is_right(p, slots);
    assert(plan_meaning::right_plan(p, current, slots, scene.rf as int));
}

/// The candidates of a pass are the workers, with their failure domains and loads.
pub proof fn candidates_are_the_workers(workers: Seq<WorkerModel>)
    ensures
        scheduler_model::slots(workers).len() == workers.len(),
        forall|i: int|
            0 <= i < workers.len() ==> {
                let s = #[trigger] scheduler_model::slots(workers)[i];
                &&& s.node_id == workers[i].node.node_id
                &&& s.domain == workers[i].node.failure_domain
                &&& s.load == workers[i].load
            },
{
}

/// Whether the commands of a pass over the shards below `n` are right: exactly the shards that are
/// not held and whose assignment is not as it should be are assigned, each once and in order, to
/// what they should have when it is their turn.
pub open spec fn right_assigns(
    commands: Seq<CommandModel>,
    scene: Scene,
    first: Seq<WorkerModel>,
    n: nat,
) -> bool {
    &&& forall|k: int|
        0 <= k < commands.len() ==> (#[trigger] commands[k] matches CommandModel::AssignShard(a)
            && a.shard_id < n && is_due(scene, first, a.shard_id) && a == scene.wanted(
            scene.workers_at(first, a.shard_id as nat),
            a.shard_id,
        ))
    &&& forall|i: int, j: int|
        0 <= i < j < commands.len() ==> (#[trigger] commands[i])->AssignShard_0.shard_id < (
        #[trigger] commands[j])->AssignShard_0.shard_id
    &&& forall|shard: ShardId|
        shard < n && #[trigger] is_due(scene, first, shard) ==> commands.contains(
            CommandModel::AssignShard(
                scene.wanted(scene.workers_at(first, shard as nat), shard),
            ),
        )
}

/// Whether a shard is to be assigned: it is not held, and it has no assignment though there is a
/// replica to assign, or one that is not what it should have.
pub open spec fn is_due(scene: Scene, first: Seq<WorkerModel>, shard: ShardId) -> bool {
    let at = scene.workers_at(first, shard as nat);
    let w = scene.wanted(at, shard);
    !scene.held(at, shard) && if scene.assignments.dom().contains(shard) {
        let a = scene.assignments[shard];
        !(a.replicas == w.replicas && a.preferred_leader == w.preferred_leader
            && a.preferred_region == w.preferred_region && a.preferred_cloud_provider
            == w.preferred_cloud_provider)
    } else {
        w.replicas.len() > 0
    }
}

proof fn assigns_are_right(scene: Scene, first: Seq<WorkerModel>, n: nat)
    requires
        n <= u32::MAX,
    ensures
        right_assigns(scene.assigns(first, n), scene, first, n),
    decreases n,
{
    let now = scene.assigns(first, n);
    if n > 0 {
        let before = scene.assigns(first, (n - 1) as nat);
        let last = (n - 1) as ShardId;
        assigns_are_right(scene, first, (n - 1) as nat);
        let c = CommandModel::AssignShard(
            scene.wanted(scene.workers_at(first, last as nat), last),
        );
        assert(now == if is_due(scene, first, last) {
            before.push(c)
        } else {
            before
        });
        assert forall|k: int| 0 <= k < now.len() implies (
        #[trigger] now[k] matches CommandModel::AssignShard(a) && a.shard_id < n && is_due(
            scene,
            first,
            a.shard_id,
        ) && a == scene.wanted(scene.workers_at(first, a.shard_id as nat), a.shard_id)) by {
            if k < before.len() {
                assert(now[k] == before[k]);
            }
        }
        assert forall|i: int, j: int| 0 <= i < j < now.len() implies (
        #[trigger] now[i])->AssignShard_0.shard_id < (
        #[trigger] now[j])->AssignShard_0.shard_id by {
            assert(now[i] == before[i]);
            if j < before.len() {
                assert(now[j] == before[j]);
            }
        }
        assert forall|shard: ShardId| shard < n && #[trigger] is_due(
            scene,
            first,
            shard,
        ) implies now.contains(
            CommandModel::AssignShard(scene.wanted(scene.workers_at(first, shard as nat), shard)),
        ) by {
            if shard < last {
                let x = CommandModel::AssignShard(
                    scene.wanted(scene.workers_at(first, shard as nat), shard),
                );
                let k = choose|k: int| 0 <= k < before.len() && before[k] == x;
                assert(now[k] == x);
            } else {
                assert(now[before.len() as int] == c);
            }
        }
    }
}

/// A reconciliation gives the right assignments, and then removes the nodes that are evacuated.
pub proof fn reconciliation_is_right(s: StateModel)
    ensures
        exists|assigns: Seq<CommandModel>, removals: Seq<CommandModel>|
            {
                &&& scheduler::reconciliation(s) == assigns + removals
                &&& #[trigger] right_assigns(
                    assigns,
                    scheduler_stability::scene_of(s),
                    scheduler_stability::workers_of(s),
                    s.placement.shard_count as nat,
                )
                &&& #[trigger] removes(removals, membership::listing(s.nodes))
            },
{
    let scene = scheduler_stability::scene_of(s);
    let first = scheduler_stability::workers_of(s);
    let n = s.placement.shard_count as nat;
    let nodes = membership::listing(s.nodes);
    let a = scene.assigns(first, n);
    let f = scheduler_model::forgets(nodes);
    assigns_are_right(scene, first, n);
    evacuated_nodes_are_removed(nodes);
    assert(removes(f, nodes));
    assert(scheduler::reconciliation(s) == a + f);
}

/// Whether some commands remove exactly the draining nodes that report hosting nothing, in order.
pub open spec fn removes(commands: Seq<CommandModel>, nodes: Seq<NodeModel>) -> bool {
    commands == nodes.filter(
        |n: NodeModel| n.health == NodeHealth::Draining && n.hosted_shards.len() == 0,
    ).map_values(|n: NodeModel| CommandModel::ForgetNode(n.node_id))
}

} // verus!
