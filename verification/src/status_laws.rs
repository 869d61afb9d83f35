//! What a status means: its figures as counts over the nodes and the assignments, and readiness as
//! what holds of every shard.

use crate::api;
use crate::api::StatusSummary;
use crate::model::{AssignmentModel, NodeHealth, NodeModel, ScalePlan};
use crate::text;
use vstd::prelude::*;

verus! {

/// The nodes of one health.
pub open spec fn of_health(nodes: Seq<NodeModel>, health: NodeHealth) -> Seq<NodeModel> {
    nodes.filter(|n: NodeModel| n.health == health)
}

/// A name as it is compared: without surrounding white space, in lower case, and a word of its own
/// where nothing is left.
pub open spec fn folded(name: Seq<char>) -> Seq<char> {
    if text::trimmed(name).len() == 0 {
        "unknown"@
    } else {
        text::lowered(text::trimmed(name))
    }
}

/// Whether a node is listed as healthy.
pub open spec fn runs(nodes: Seq<NodeModel>, id: Seq<char>) -> bool {
    exists|n: int|
        0 <= n < nodes.len() && (#[trigger] nodes[n]).node_id == id && nodes[n].health
            == NodeHealth::Healthy
}

/// Whether every replica of an assignment is on a node that is listed as healthy.
pub open spec fn all_run(nodes: Seq<NodeModel>, a: AssignmentModel) -> bool {
    forall|k: int| 0 <= k < a.replicas.len() ==> runs(nodes, #[trigger] a.replicas[k])
}

/// Whether no two nodes have the same id.
pub open spec fn ids_differ(nodes: Seq<NodeModel>) -> bool {
    forall|i: int, j: int|
        0 <= i < j < nodes.len() ==> (#[trigger] nodes[i]).node_id != (#[trigger] nodes[j]).node_id
}

/// The figures of a status that count nodes.
pub open spec fn counts_nodes(r: StatusSummary, nodes: Seq<NodeModel>) -> bool {
    let up = of_health(nodes, NodeHealth::Healthy);
    &&& r.healthy == up.len()
    &&& r.suspect == of_health(nodes, NodeHealth::Suspect).len()
    &&& r.dead == of_health(nodes, NodeHealth::Dead).len()
    &&& r.draining == of_health(nodes, NodeHealth::Draining).len()
    &&& r.healthy_failure_domains == up.map_values(
        |n: NodeModel| folded(n.failure_domain),
    ).to_set().len()
    &&& r.healthy_cloud_providers == up.filter(
        |n: NodeModel| text::trimmed(n.cloud_provider).len() > 0,
    ).map_values(|n: NodeModel| folded(n.cloud_provider)).to_set().len()
    &&& r.healthy_kubernetes_clusters == up.map_values(
        |n: NodeModel|
            if text::trimmed(n.cluster_id).len() > 0 {
                folded(n.cluster_id)
            } else {
                folded(n.failure_domain)
            },
    ).to_set().len()
    &&& forall|d: Seq<char>|
        {
            let there = nodes.filter(|n: NodeModel| folded(n.failure_domain) == d).len();
            &&& #[trigger] r.nodes_by_failure_domain@.dom().contains(d) <==> there > 0
            &&& there > 0 ==> r.nodes_by_failure_domain@[d] == there
        }
}

/// The figures of a status that count shards.
pub open spec fn counts_shards(
    r: StatusSummary,
    nodes: Seq<NodeModel>,
    list: Seq<AssignmentModel>,
    shard_count: u32,
) -> bool {
    let missing = if list.len() < shard_count {
        shard_count - list.len()
    } else {
        0
    };
    &&& r.placed_shards == list.len()
    &&& r.unplaced_shards == missing
    &&& r.under_replicated_shards == missing + list.filter(
        |a: AssignmentModel| a.replicas.len() < 3,
    ).len()
    &&& r.leaderless_shards == missing + list.filter(
        |a: AssignmentModel| a.preferred_leader is None,
    ).len()
    &&& r.shards_with_unhealthy_replicas == list.filter(
        |a: AssignmentModel| !all_run(nodes, a),
    ).len()
}

/// Whether a cluster is ready: three failure domains have a healthy node, every shard is placed,
/// and every placed shard has three replicas, all on healthy nodes, and a leader.
pub open spec fn is_ready(
    nodes: Seq<NodeModel>,
    list: Seq<AssignmentModel>,
    shard_count: u32,
) -> bool {
    &&& of_health(nodes, NodeHealth::Healthy).map_values(
        |n: NodeModel| folded(n.failure_domain),
    ).to_set().len() >= 3
    &&& list.len() >= shard_count
    &&& forall|i: int|
        0 <= i < list.len() ==> (#[trigger] list[i]).replicas.len() >= 3
            && list[i].preferred_leader is Some && all_run(nodes, list[i])
}

proof fn counted_by_filter(list: Seq<AssignmentModel>, holds: spec_fn(AssignmentModel) -> bool)
    ensures
        api::count_assignments(list, holds) == list.filter(holds).len(),
        list.filter(holds).len() == 0 <==> forall|i: int|
            0 <= i < list.len() ==> !holds(#[trigger] list[i]),
    decreases list.len(),
{
    reveal(Seq::filter);
    if list.len() > 0 {
        let rest = list.drop_last();
        counted_by_filter(rest, holds);
        if list.filter(holds).len() == 0 {
            assert forall|i: int| 0 <= i < list.len() implies !holds(#[trigger] list[i]) by {
                if i < rest.len() {
                    assert(rest[i] == list[i]);
                }
            }
        }
        if forall|i: int| 0 <= i < list.len() ==> !holds(#[trigger] list[i]) {
            assert forall|i: int| 0 <= i < rest.len() implies !holds(#[trigger] rest[i]) by {
                assert(rest[i] == list[i]);
            }
            assert(!holds(list[list.len() - 1]));
        }
    }
}

proof fn filters_agree(
    list: Seq<AssignmentModel>,
    p: spec_fn(AssignmentModel) -> bool,
    q: spec_fn(AssignmentModel) -> bool,
)
    requires
        forall|a: AssignmentModel| #[trigger] p(a) == q(a),
    ensures
        list.filter(p) == list.filter(q),
    decreases list.len(),
{
    reveal(Seq::filter);
    if list.len() > 0 {
        filters_agree(list.drop_last(), p, q);
    }
}

proof fn health_is_listed(nodes: Seq<NodeModel>, id: Seq<char>)
    ensures
        api::listed_health(nodes, id) == Some(NodeHealth::Healthy) ==> runs(nodes, id),
        ids_differ(nodes) && runs(nodes, id) ==> api::listed_health(nodes, id) == Some(
            NodeHealth::Healthy,
        ),
    decreases nodes.len(),
{
    if nodes.len() > 0 {
        let rest = nodes.drop_last();
        health_is_listed(rest, id);
        if runs(rest, id) {
            let n = choose|n: int|
                0 <= n < rest.len() && (#[trigger] rest[n]).node_id == id && rest[n].health
                    == NodeHealth::Healthy;
            assert(nodes[n] == rest[n]);
        }
        if nodes.last().node_id == id && nodes.last().health == NodeHealth::Healthy {
            assert(nodes[nodes.len() - 1].node_id == id);
        }
        if ids_differ(nodes) {
            assert(ids_differ(rest)) by {
                assert forall|i: int, j: int| 0 <= i < j < rest.len() implies (
                #[trigger] rest[i]).node_id != (#[trigger] rest[j]).node_id by {
                    assert(nodes[i] == rest[i] && nodes[j] == rest[j]);
                }
            }
            if runs(nodes, id) {
                let n = choose|n: int|
                    0 <= n < nodes.len() && (#[trigger] nodes[n]).node_id == id && nodes[n].health
                        == NodeHealth::Healthy;
                if n < rest.len() {
                    assert(rest[n] == nodes[n]);
                    assert(nodes[n].node_id != nodes[nodes.len() - 1].node_id);
                }
            }
        }
    }
}

proof fn nodes_are_counted(nodes: Seq<NodeModel>, health: NodeHealth, d: Seq<char>)
    ensures
        api::health_count(nodes, health) == of_health(nodes, health).len(),
        api::domain_count(nodes, d) == nodes.filter(
            |n: NodeModel| folded(n.failure_domain) == d,
        ).len(),
    decreases nodes.len(),
{
    reveal(Seq::filter);
    if nodes.len() > 0 {
        nodes_are_counted(nodes.drop_last(), health, d);
    }
}

spec fn domains_up(nodes: Seq<NodeModel>) -> Seq<Seq<char>> {
    of_health(nodes, NodeHealth::Healthy).map_values(|n: NodeModel| folded(n.failure_domain))
}

spec fn clouds_up(nodes: Seq<NodeModel>) -> Seq<Seq<char>> {
    of_health(nodes, NodeHealth::Healthy).filter(
        |n: NodeModel| text::trimmed(n.cloud_provider).len() > 0,
    ).map_values(|n: NodeModel| folded(n.cloud_provider))
}

spec fn clusters_up(nodes: Seq<NodeModel>) -> Seq<Seq<char>> {
    of_health(nodes, NodeHealth::Healthy).map_values(
        |n: NodeModel|
            if text::trimmed(n.cluster_id).len() > 0 {
                folded(n.cluster_id)
            } else {
                folded(n.failure_domain)
            },
    )
}

proof fn pushed_to_set(s: Seq<Seq<char>>, x: Seq<char>)
    ensures
        s.push(x).to_set() == s.to_set().insert(x),
{
    assert forall|y: Seq<char>| s.push(x).to_set().contains(y) <==> s.to_set().insert(
        x,
    ).contains(y) by {
        if s.contains(y) {
            let i = choose|i: int| 0 <= i < s.len() && s[i] == y;
            assert(s.push(x)[i] == y);
        }
        if y == x {
            assert(s.push(x)[s.len() as int] == y);
        }
        if s.push(x).contains(y) {
            let i = choose|i: int| 0 <= i < s.push(x).len() && s.push(x)[i] == y;
            if i < s.len() {
                assert(s[i] == y);
            }
        }
    }
    assert(s.push(x).to_set() =~= s.to_set().insert(x));
}

proof fn places_are_counted(nodes: Seq<NodeModel>)
    ensures
        api::healthy_domains(nodes) == domains_up(nodes).to_set(),
        api::healthy_clouds(nodes) == clouds_up(nodes).to_set(),
        api::healthy_clusters(nodes) == clusters_up(nodes).to_set(),
    decreases nodes.len(),
{
    reveal(Seq::filter);
    let up = of_health(nodes, NodeHealth::Healthy);
    if nodes.len() == 0 {
        assert(domains_up(nodes) =~= Seq::empty());
        assert(clouds_up(nodes) =~= Seq::empty());
        assert(clusters_up(nodes) =~= Seq::empty());
        assert(Seq::<Seq<char>>::empty().to_set() =~= Set::empty());
    } else {
        let rest = nodes.drop_last();
        let node = nodes.last();
        places_are_counted(rest);
        let before = of_health(rest, NodeHealth::Healthy);
        if node.health == NodeHealth::Healthy {
            assert(up == before.push(node));
            assert(up.drop_last() =~= before);
            assert(domains_up(nodes) =~= domains_up(rest).push(folded(node.failure_domain)));
            pushed_to_set(domains_up(rest), folded(node.failure_domain));
            let cluster = if text::trimmed(node.cluster_id).len() > 0 {
                folded(node.cluster_id)
            } else {
                folded(node.failure_domain)
            };
            assert(clusters_up(nodes) =~= clusters_up(rest).push(cluster));
            pushed_to_set(clusters_up(rest), cluster);
            if text::trimmed(node.cloud_provider).len() > 0 {
                assert(clouds_up(nodes) =~= clouds_up(rest).push(folded(node.cloud_provider)));
                pushed_to_set(clouds_up(rest), folded(node.cloud_provider));
            } else {
                assert(clouds_up(nodes) =~= clouds_up(rest));
            }
        }
    }
}

/// A status counts the nodes of each health, and the failure domains, clouds and clusters that have
/// a healthy node, names compared without case and surrounding white space.
pub proof fn status_counts_nodes(
    r: StatusSummary,
    nodes: Seq<NodeModel>,
    list: Seq<AssignmentModel>,
    plan: ScalePlan,
    shard_count: u32,
)
    requires
        api::summarizes(r, nodes, list, plan, shard_count),
    ensures
        counts_nodes(r, nodes),
        r.healthy + r.suspect + r.dead + r.draining == nodes.len(),
        r.scale_target_met <==> of_health(nodes, NodeHealth::Healthy).len() >= plan.target_nodes
            && of_health(nodes, NodeHealth::Healthy).len() >= 3,
{
    nodes_are_counted(nodes, NodeHealth::Healthy, Seq::empty());
    nodes_are_counted(nodes, NodeHealth::Suspect, Seq::empty());
    nodes_are_counted(nodes, NodeHealth::Dead, Seq::empty());
    nodes_are_counted(nodes, NodeHealth::Draining, Seq::empty());
    places_are_counted(nodes);
    health_is_one_of_four(nodes);
    assert forall|d: Seq<char>|
        {
            let there = nodes.filter(|n: NodeModel| folded(n.failure_domain) == d).len();
            &&& #[trigger] r.nodes_by_failure_domain@.dom().contains(d) <==> there > 0
            &&& there > 0 ==> r.nodes_by_failure_domain@[d] == there
        } by {
        nodes_are_counted(nodes, NodeHealth::Healthy, d);
        assert(api::domain_count(nodes, d) >= 0);
    }
}

proof fn health_is_one_of_four(nodes: Seq<NodeModel>)
    ensures
        api::health_count(nodes, NodeHealth::Healthy) + api::health_count(
            nodes,
            NodeHealth::Suspect,
        ) + api::health_count(nodes, NodeHealth::Dead) + api::health_count(
            nodes,
            NodeHealth::Draining,
        ) == nodes.len(),
    decreases nodes.len(),
{
    if nodes.len() > 0 {
        health_is_one_of_four(nodes.drop_last());
    }
}

/// A status counts the shards that are not placed, have fewer than three replicas, have no leader,
/// or have a replica on a node that is not listed as healthy.
pub proof fn status_counts_shards(
    r: StatusSummary,
    nodes: Seq<NodeModel>,
    list: Seq<AssignmentModel>,
    plan: ScalePlan,
    shard_count: u32,
)
    requires
        ids_differ(nodes),
        api::summarizes(r, nodes, list, plan, shard_count),
    ensures
        counts_shards(r, nodes, list, shard_count),
{
    let few = |a: AssignmentModel| a.replicas.len() < 3;
    let leaderless = |a: AssignmentModel| a.preferred_leader is None;
    let ailing = |a: AssignmentModel| !all_run(nodes, a);
    let few_there = |a: AssignmentModel| api::too_few_replicas(a);
    let ailing_there = |a: AssignmentModel| api::has_unhealthy_replica(nodes, a);
    counted_by_filter(list, few_there);
    counted_by_filter(list, leaderless);
    counted_by_filter(list, ailing_there);
    filters_agree(list, few, few_there);
    assert forall|a: AssignmentModel| #[trigger] ailing(a) == ailing_there(a) by {
        if !all_run(nodes, a) {
            let k = choose|k: int|
                0 <= k < a.replicas.len() && !runs(nodes, #[trigger] a.replicas[k]);
            health_is_listed(nodes, a.replicas[k]);
        }
        if api::has_unhealthy_replica(nodes, a) {
            let k = choose|k: int|
                0 <= k < a.replicas.len() && api::listed_health(nodes, #[trigger] a.replicas[k])
                    != Some(NodeHealth::Healthy);
            health_is_listed(nodes, a.replicas[k]);
        }
    }
    filters_agree(list, ailing, ailing_there);
}

/// A status is ready exactly where the cluster is.
pub proof fn ready_is_ready(
    r: StatusSummary,
    nodes: Seq<NodeModel>,
    list: Seq<AssignmentModel>,
    plan: ScalePlan,
    shard_count: u32,
)
    requires
        api::summarizes(r, nodes, list, plan, shard_count),
    ensures
        r.ready ==> is_ready(nodes, list, shard_count),
        ids_differ(nodes) && is_ready(nodes, list, shard_count) ==> r.ready,
{
    let few = |a: AssignmentModel| api::too_few_replicas(a);
    let leaderless = |a: AssignmentModel| a.preferred_leader is None;
    let ailing = |a: AssignmentModel| api::has_unhealthy_replica(nodes, a);
    status_counts_nodes(r, nodes, list, plan, shard_count);
    counted_by_filter(list, few);
    counted_by_filter(list, leaderless);
    counted_by_filter(list, ailing);
    if r.ready {
        assert forall|i: int| 0 <= i < list.len() implies (#[trigger] list[i]).replicas.len() >= 3
            && list[i].preferred_leader is Some && all_run(nodes, list[i]) by {
            assert(!few(list[i]) && !leaderless(list[i]) && !ailing(list[i]));
            assert forall|k: int| 0 <= k < list[i].replicas.len() implies runs(
                nodes,
                #[trigger] list[i].replicas[k],
            ) by {
                health_is_listed(nodes, list[i].replicas[k]);
            }
        }
    }
    if ids_differ(nodes) && is_ready(nodes, list, shard_count) {
        assert forall|i: int| 0 <= i < list.len() implies !few(#[trigger] list[i]) && !leaderless(
            list[i],
        ) && !ailing(list[i]) by {
            if api::has_unhealthy_replica(nodes, list[i]) {
                let k = choose|k: int|
                    0 <= k < list[i].replicas.len() && api::listed_health(
                        nodes,
                        #[trigger] list[i].replicas[k],
                    ) != Some(NodeHealth::Healthy);
                health_is_listed(nodes, list[i].replicas[k]);
            }
        }
    }
}

} // verus!
