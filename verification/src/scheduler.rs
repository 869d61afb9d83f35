//! Reconciliation: the scaling and healing strategy.
//!
//! Shard count is fixed; node count is elastic. Every phase of it (heal a failure, absorb a new
//! node, drain a node, rebalance) is the same question per shard: what should its replicas and its
//! leader be? Each tick recomputes the answer and publishes the assignments that changed. A dead
//! or draining node stops being a candidate, so its replicas flow elsewhere.

use crate::cluster::{Command, CommandModel, ControlPlane, LocalControlPlane, StateModel};
use crate::ids::IdSet;
use crate::leadership::{desired_leader, preferred_leader_for_policy, LeaderSlot};
use crate::membership;
use crate::membership::Membership;
use crate::model::{NodeHealth, NodeId, NodeInfo, ScalePlan, ShardAssignment, ShardId};
use crate::oracle::LivenessOracle;
use crate::placement;
use crate::placement::Placement;
use crate::plan;
use crate::plan::{plan_replicas, NodeSlot};
use crate::scheduler_model;
use crate::scheduler_model::{Scene, WorkerModel};
use crate::text;
use crate::text::{copy_text_opt, copy_texts, text_before, text_eq, text_opt_eq, texts_eq};
use vstd::prelude::*;

verus! {

/// A node that takes part in placement.
struct Worker {
    node: NodeInfo,
    load: u32,
    leads: u32,
}

impl DeepView for Worker {
    type V = WorkerModel;

    closed spec fn deep_view(&self) -> WorkerModel {
        WorkerModel { node: self.node.deep_view(), load: self.load, leads: self.leads }
    }
}

impl Worker {
    fn copy(&self) -> (r: Worker)
        ensures
            r.deep_view() == self.deep_view(),
    {
        Worker { node: self.node.clone(), load: self.load, leads: self.leads }
    }
}

fn count_named(ids: &Vec<NodeId>, id: &str, start: u32) -> (r: u32)
    ensures
        r == scheduler_model::counted(
            (start + scheduler_model::times_named(ids.deep_view(), id@)) as nat,
        ),
{
    let ghost model = ids.deep_view();
    let mut r: u32 = start;
    let mut i: usize = 0;
    assert(model.take(0) =~= Seq::<Seq<char>>::empty());
    while i < ids.len()
        invariant
            i <= ids.len(),
            model == ids.deep_view(),
            r == scheduler_model::counted(
                (start + scheduler_model::times_named(model.take(i as int), id@)) as nat,
            ),
        decreases ids.len() - i,
    {
        assert(model.take(i + 1).drop_last() =~= model.take(i as int));
        if text_eq(ids[i].as_str(), id) {
            r = r.saturating_add(1);
        }
        i += 1;
    }
    assert(model.take(model.len() as int) =~= model);
    r
}

fn count_replicas(assignments: &Vec<ShardAssignment>, id: &str) -> (r: u32)
    ensures
        r == scheduler_model::counted(scheduler_model::replicas_held(assignments.deep_view(), id@)),
{
    let ghost model = assignments.deep_view();
    let mut r: u32 = 0;
    let mut i: usize = 0;
    while i < assignments.len()
        invariant
            i <= assignments.len(),
            model == assignments.deep_view(),
            r == scheduler_model::counted(
                scheduler_model::replicas_held(model.take(i as int), id@),
            ),
        decreases assignments.len() - i,
    {
        assert(model.take(i + 1).drop_last() =~= model.take(i as int));
        assert(model.take(i + 1).last() == assignments@[i as int].deep_view());
        r = count_named(&assignments[i].replicas, id, r);
        i += 1;
    }
    assert(model.take(model.len() as int) =~= model);
    r
}

fn count_led(assignments: &Vec<ShardAssignment>, id: &str) -> (r: u32)
    ensures
        r == scheduler_model::counted(scheduler_model::shards_led(assignments.deep_view(), id@)),
{
    let ghost model = assignments.deep_view();
    let mut r: u32 = 0;
    let mut i: usize = 0;
    while i < assignments.len()
        invariant
            i <= assignments.len(),
            model == assignments.deep_view(),
            r == scheduler_model::counted(scheduler_model::shards_led(model.take(i as int), id@)),
        decreases assignments.len() - i,
    {
        assert(model.take(i + 1).drop_last() =~= model.take(i as int));
        assert(model.take(i + 1).last() == assignments@[i as int].deep_view());
        let leads: bool = match &assignments[i].preferred_leader {
            Some(l) => text_eq(l.as_str(), id),
            None => false,
        };
        if leads {
            r = r.saturating_add(1);
        }
        i += 1;
    }
    assert(model.take(model.len() as int) =~= model);
    r
}

fn collect_healthy(nodes: &Vec<NodeInfo>, assignments: &Vec<ShardAssignment>) -> (r: Vec<Worker>)
    ensures
        r.deep_view() == scheduler_model::healthy_workers(
            nodes.deep_view(),
            assignments.deep_view(),
        ),
{
    let ghost model = nodes.deep_view();
    let mut r: Vec<Worker> = Vec::new();
    let mut i: usize = 0;
    assert(r.deep_view() =~= scheduler_model::healthy_workers(
        model.take(0),
        assignments.deep_view(),
    ));
    while i < nodes.len()
        invariant
            i <= nodes.len(),
            model == nodes.deep_view(),
            r.deep_view() == scheduler_model::healthy_workers(
                model.take(i as int),
                assignments.deep_view(),
            ),
        decreases nodes.len() - i,
    {
        assert(model.take(i + 1).drop_last() =~= model.take(i as int));
        assert(model.take(i + 1).last() == nodes@[i as int].deep_view());
        if nodes[i].health == NodeHealth::Healthy {
            let w = Worker {
                node: nodes[i].clone(),
                load: count_replicas(assignments, nodes[i].node_id.as_str()),
                leads: count_led(assignments, nodes[i].node_id.as_str()),
            };
            let ghost was = r.deep_view();
            let ghost m = w.deep_view();
            r.push(w);
            assert(r.deep_view() =~= was.push(m));
        }
        i += 1;
    }
    assert(model.take(model.len() as int) =~= model);
    r
}

fn rank_of(all: &Vec<Worker>, w: &Worker) -> (r: usize)
    ensures
        r == scheduler_model::rank(all.deep_view(), w.deep_view()),
{
    let ghost model = all.deep_view();
    let mut r: usize = 0;
    let mut i: usize = 0;
    while i < all.len()
        invariant
            i <= all.len(),
            r <= i,
            model == all.deep_view(),
            r == scheduler_model::rank(model.take(i as int), w.deep_view()),
        decreases all.len() - i,
    {
        assert(model.take(i + 1).drop_last() =~= model.take(i as int));
        assert(model.take(i + 1).last() == all@[i as int].deep_view());
        if all[i].load > w.load || (all[i].load == w.load && text_before(
            all[i].node.node_id.as_str(),
            w.node.node_id.as_str(),
        )) {
            r += 1;
        }
        i += 1;
    }
    assert(model.take(model.len() as int) =~= model);
    r
}

/// The workers that the plan wants. If there are more healthy nodes than that, the loaded ones
/// stay active and the light ones evacuate as assignments move away from them.
fn active_nodes_for_target(all: Vec<Worker>, target: usize) -> (r: Vec<Worker>)
    ensures
        r.deep_view() == scheduler_model::active_workers(all.deep_view(), target as nat),
{
    if all.len() <= target {
        return all;
    }
    let ghost model = all.deep_view();
    let mut r: Vec<Worker> = Vec::new();
    let mut i: usize = 0;
    assert(r.deep_view() =~= scheduler_model::top(model.take(0), model, target as nat));
    while i < all.len()
        invariant
            i <= all.len(),
            model == all.deep_view(),
            r.deep_view() == scheduler_model::top(model.take(i as int), model, target as nat),
        decreases all.len() - i,
    {
        assert(model.take(i + 1).drop_last() =~= model.take(i as int));
        assert(model.take(i + 1).last() == all@[i as int].deep_view());
        if rank_of(&all, &all[i]) < target {
            let w = all[i].copy();
            let ghost was = r.deep_view();
            let ghost m = w.deep_view();
            r.push(w);
            assert(r.deep_view() =~= was.push(m));
        }
        i += 1;
    }
    assert(model.take(model.len() as int) =~= model);
    r
}

fn is_known(nodes: &Vec<NodeInfo>, id: &str) -> (r: bool)
    ensures
        r == scheduler_model::known(nodes.deep_view(), id@),
{
    let ghost model = nodes.deep_view();
    let mut i: usize = 0;
    while i < nodes.len()
        invariant
            i <= nodes.len(),
            model == nodes.deep_view(),
            forall|k: int| 0 <= k < i ==> (#[trigger] model[k]).node_id != id@,
        decreases nodes.len() - i,
    {
        assert(model[i as int] == nodes@[i as int].deep_view());
        if text_eq(nodes[i].node_id.as_str(), id) {
            assert(model[i as int].node_id == id@);
            return true;
        }
        i += 1;
    }
    false
}

fn are_known(nodes: &Vec<NodeInfo>, ids: &Vec<NodeId>) -> (r: bool)
    ensures
        r == scheduler_model::all_known(nodes.deep_view(), ids.deep_view()),
{
    let ghost model = ids.deep_view();
    let mut i: usize = 0;
    while i < ids.len()
        invariant
            i <= ids.len(),
            model == ids.deep_view(),
            forall|k: int|
                0 <= k < i ==> scheduler_model::known(nodes.deep_view(), #[trigger] model[k]),
        decreases ids.len() - i,
    {
        assert(model[i as int] == ids@[i as int]@);
        if !is_known(nodes, ids[i].as_str()) {
            return false;
        }
        i += 1;
    }
    true
}

fn names_shard(shards: &Vec<ShardId>, shard: ShardId) -> (r: bool)
    ensures
        r == shards@.contains(shard),
{
    let mut i: usize = 0;
    while i < shards.len()
        invariant
            i <= shards.len(),
            forall|k: int| 0 <= k < i ==> shards@[k] != shard,
        decreases shards.len() - i,
    {
        if shards[i] == shard {
            assert(shards@[i as int] == shard);
            return true;
        }
        i += 1;
    }
    false
}

fn find_observed_leader(nodes: &Vec<NodeInfo>, shard: ShardId) -> (r: Option<NodeId>)
    ensures
        r.deep_view() == scheduler_model::observed_leader(nodes.deep_view(), shard),
{
    let ghost model = nodes.deep_view();
    let mut i: usize = nodes.len();
    assert(model.take(model.len() as int) =~= model);
    while i > 0
        invariant
            i <= nodes.len(),
            model == nodes.deep_view(),
            scheduler_model::observed_leader(model, shard) == scheduler_model::observed_leader(
                model.take(i as int),
                shard,
            ),
        decreases i,
    {
        assert(model.take(i as int).drop_last() =~= model.take(i - 1));
        assert(model.take(i as int).last() == nodes@[i - 1].deep_view());
        let node = &nodes[i - 1];
        if node.health == NodeHealth::Healthy && names_shard(&node.leading_shards, shard) {
            return Some(node.node_id.clone());
        }
        i -= 1;
    }
    None
}

fn find_observed_replicas(nodes: &Vec<NodeInfo>, shard: ShardId) -> (r: Vec<NodeId>)
    ensures
        r.deep_view() == scheduler_model::observed_replicas(nodes.deep_view(), shard),
{
    let ghost model = nodes.deep_view();
    let mut r: Vec<NodeId> = Vec::new();
    let mut i: usize = 0;
    assert(r.deep_view() =~= scheduler_model::observed_replicas(model.take(0), shard));
    while i < nodes.len()
        invariant
            i <= nodes.len(),
            model == nodes.deep_view(),
            r.deep_view() == scheduler_model::observed_replicas(model.take(i as int), shard),
        decreases nodes.len() - i,
    {
        assert(model.take(i + 1).drop_last() =~= model.take(i as int));
        assert(model.take(i + 1).last() == nodes@[i as int].deep_view());
        if nodes[i].health == NodeHealth::Healthy {
            let hosted = &nodes[i].hosted_shards;
            let ghost before = r.deep_view();
            let ghost id = nodes@[i as int].node_id@;
            let mut k: usize = 0;
            while k < hosted.len()
                invariant
                    i < nodes.len(),
                    k <= hosted.len(),
                    id == nodes@[i as int].node_id@,
                    r.deep_view() == scheduler_model::hosting(
                        before,
                        id,
                        hosted@.take(k as int),
                        shard,
                    ),
                decreases hosted.len() - k,
            {
                assert(hosted@.take(k + 1).drop_last() =~= hosted@.take(k as int));
                if hosted[k] == shard {
                    let ghost was = r.deep_view();
                    r.push(nodes[i].node_id.clone());
                    assert(r.deep_view() =~= was.push(id));
                }
                k += 1;
            }
            assert(hosted@.take(hosted@.len() as int) =~= hosted@);
        }
        i += 1;
    }
    assert(model.take(model.len() as int) =~= model);
    r
}

fn make_slots(workers: &Vec<Worker>) -> (r: Vec<NodeSlot>)
    ensures
        r.deep_view() == scheduler_model::slots(workers.deep_view()),
{
    let ghost model = workers.deep_view();
    let mut r: Vec<NodeSlot> = Vec::new();
    let mut i: usize = 0;
    while i < workers.len()
        invariant
            i <= workers.len(),
            model == workers.deep_view(),
            r.len() == i,
            forall|k: int|
                0 <= k < i ==> (#[trigger] r@[k]).deep_view() == scheduler_model::slots(model)[k],
        decreases workers.len() - i,
    {
        assert(model[i as int] == workers@[i as int].deep_view());
        r.push(
            NodeSlot {
                node_id: workers[i].node.node_id.clone(),
                domain: workers[i].node.failure_domain.clone(),
                load: workers[i].load,
            },
        );
        i += 1;
    }
    assert(r.deep_view() =~= scheduler_model::slots(model));
    r
}

fn collect_ids(workers: &Vec<Worker>) -> (r: IdSet)
    ensures
        r@ == scheduler_model::worker_ids(workers.deep_view()),
{
    let ghost model = workers.deep_view();
    let mut r = IdSet::new();
    let mut i: usize = 0;
    while i < workers.len()
        invariant
            i <= workers.len(),
            model == workers.deep_view(),
            r@ == scheduler_model::worker_ids(model.take(i as int)),
        decreases workers.len() - i,
    {
        assert(model.take(i + 1).drop_last() =~= model.take(i as int));
        assert(model.take(i + 1).last() == workers@[i as int].deep_view());
        r.insert(workers[i].node.node_id.clone());
        i += 1;
    }
    assert(model.take(model.len() as int) =~= model);
    r
}

/// What happens to a worker that an id names.
#[derive(Clone, Copy)]
enum Change {
    MoreLoad,
    LessLoad,
    MoreLeads,
    LessLeads,
}

spec fn changed(w: WorkerModel, change: Change) -> WorkerModel {
    match change {
        Change::MoreLoad => if w.load < u32::MAX {
            WorkerModel { load: (w.load + 1) as u32, ..w }
        } else {
            w
        },
        Change::LessLoad => if w.load > 0 {
            WorkerModel { load: (w.load - 1) as u32, ..w }
        } else {
            w
        },
        Change::MoreLeads => if w.leads < u32::MAX {
            WorkerModel { leads: (w.leads + 1) as u32, ..w }
        } else {
            w
        },
        Change::LessLeads => if w.leads > 0 {
            WorkerModel { leads: (w.leads - 1) as u32, ..w }
        } else {
            w
        },
    }
}

/// Changes the workers that `id` names.
fn change_worker(workers: Vec<Worker>, id: &str, change: Change) -> (r: Vec<Worker>)
    ensures
        r.len() == workers.len(),
        forall|k: int|
            0 <= k < r.len() ==> (#[trigger] r.deep_view()[k]) == if workers.deep_view()[k].node.node_id
                == id@ {
                changed(workers.deep_view()[k], change)
            } else {
                workers.deep_view()[k]
            },
{
    let ghost model = workers.deep_view();
    let mut r: Vec<Worker> = Vec::new();
    let mut i: usize = 0;
    while i < workers.len()
        invariant
            i <= workers.len(),
            model == workers.deep_view(),
            r.len() == i,
            forall|k: int|
                0 <= k < i ==> (#[trigger] r@[k]).deep_view() == if model[k].node.node_id == id@ {
                    changed(model[k], change)
                } else {
                    model[k]
                },
        decreases workers.len() - i,
    {
        assert(model[i as int] == workers@[i as int].deep_view());
        let mut w = workers[i].copy();
        if text_eq(w.node.node_id.as_str(), id) {
            match change {
                Change::MoreLoad => {
                    w.load = w.load.saturating_add(1);
                },
                Change::LessLoad => {
                    w.load = w.load.saturating_sub(1);
                },
                Change::MoreLeads => {
                    w.leads = w.leads.saturating_add(1);
                },
                Change::LessLeads => {
                    w.leads = w.leads.saturating_sub(1);
                },
            }
        }
        r.push(w);
        i += 1;
    }
    r
}

fn load_all(workers: Vec<Worker>, ids: &Vec<NodeId>) -> (r: Vec<Worker>)
    ensures
        r.deep_view() == scheduler_model::loaded(workers.deep_view(), ids.deep_view()),
{
    let ghost first = workers.deep_view();
    let ghost model = ids.deep_view();
    let mut r = workers;
    let mut i: usize = 0;
    assert(model.take(0) =~= Seq::<Seq<char>>::empty());
    while i < ids.len()
        invariant
            i <= ids.len(),
            model == ids.deep_view(),
            r.deep_view() == scheduler_model::loaded(first, model.take(i as int)),
        decreases ids.len() - i,
    {
        assert(model.take(i + 1).drop_last() =~= model.take(i as int));
        let ghost was = r.deep_view();
        r = change_worker(r, ids[i].as_str(), Change::MoreLoad);
        assert(r.deep_view() =~= scheduler_model::one_more(was, model[i as int]));
        i += 1;
    }
    assert(model.take(model.len() as int) =~= model);
    r
}

fn unload_all(workers: Vec<Worker>, ids: &Vec<NodeId>) -> (r: Vec<Worker>)
    ensures
        r.deep_view() == scheduler_model::unloaded(workers.deep_view(), ids.deep_view()),
{
    let ghost first = workers.deep_view();
    let ghost model = ids.deep_view();
    let mut r = workers;
    let mut i: usize = 0;
    assert(model.take(0) =~= Seq::<Seq<char>>::empty());
    while i < ids.len()
        invariant
            i <= ids.len(),
            model == ids.deep_view(),
            r.deep_view() == scheduler_model::unloaded(first, model.take(i as int)),
        decreases ids.len() - i,
    {
        assert(model.take(i + 1).drop_last() =~= model.take(i as int));
        let ghost was = r.deep_view();
        r = change_worker(r, ids[i].as_str(), Change::LessLoad);
        assert(r.deep_view() =~= scheduler_model::one_less(was, model[i as int]));
        i += 1;
    }
    assert(model.take(model.len() as int) =~= model);
    r
}

fn lead_more(workers: Vec<Worker>, id: &Option<NodeId>) -> (r: Vec<Worker>)
    ensures
        r.deep_view() == scheduler_model::leading_more(workers.deep_view(), id.deep_view()),
{
    let ghost was = workers.deep_view();
    let r = match id {
        Some(l) => change_worker(workers, l.as_str(), Change::MoreLeads),
        None => workers,
    };
    assert(r.deep_view() =~= scheduler_model::leading_more(was, id.deep_view()));
    r
}

fn lead_less(workers: Vec<Worker>, id: &Option<NodeId>) -> (r: Vec<Worker>)
    ensures
        r.deep_view() == scheduler_model::leading_less(workers.deep_view(), id.deep_view()),
{
    let ghost was = workers.deep_view();
    let r = match id {
        Some(l) => change_worker(workers, l.as_str(), Change::LessLeads),
        None => workers,
    };
    assert(r.deep_view() =~= scheduler_model::leading_less(was, id.deep_view()));
    r
}

fn make_leader_slot(workers: &Vec<Worker>, id: &NodeId) -> (r: LeaderSlot)
    ensures
        r.deep_view() == scheduler_model::leader_slot(workers.deep_view(), id@),
{
    let ghost model = workers.deep_view();
    let mut i: usize = workers.len();
    assert(model.take(model.len() as int) =~= model);
    while i > 0
        invariant
            i <= workers.len(),
            model == workers.deep_view(),
            scheduler_model::leader_slot(model, id@) == scheduler_model::leader_slot(
                model.take(i as int),
                id@,
            ),
        decreases i,
    {
        assert(model.take(i as int).drop_last() =~= model.take(i - 1));
        assert(model.take(i as int).last() == workers@[i - 1].deep_view());
        let w = &workers[i - 1];
        if text_eq(w.node.node_id.as_str(), id.as_str()) {
            return LeaderSlot {
                node_id: id.clone(),
                cloud_provider: w.node.cloud_provider.clone(),
                region: w.node.region.clone(),
                leader_load: w.leads,
            };
        }
        i -= 1;
    }
    LeaderSlot {
        node_id: id.clone(),
        cloud_provider: String::new(),
        region: String::new(),
        leader_load: 0,
    }
}

fn make_leader_slots(workers: &Vec<Worker>, replicas: &Vec<NodeId>) -> (r: Vec<LeaderSlot>)
    ensures
        r.deep_view() == scheduler_model::leader_slots(workers.deep_view(), replicas.deep_view()),
{
    let ghost all = scheduler_model::leader_slots(workers.deep_view(), replicas.deep_view());
    let mut r: Vec<LeaderSlot> = Vec::new();
    let mut i: usize = 0;
    while i < replicas.len()
        invariant
            i <= replicas.len(),
            all == scheduler_model::leader_slots(workers.deep_view(), replicas.deep_view()),
            r.len() == i,
            forall|k: int| 0 <= k < i ==> (#[trigger] r@[k]).deep_view() == all[k],
        decreases replicas.len() - i,
    {
        assert(replicas.deep_view()[i as int] == replicas@[i as int]@);
        r.push(make_leader_slot(workers, &replicas[i]));
        i += 1;
    }
    assert(r.deep_view() =~= all);
    r
}

/// Whether the replica at `i` may give way to `s`.
fn can_give_way(replicas: &Vec<NodeId>, healthy: &Vec<NodeSlot>, i: usize, s: &NodeSlot) -> (r: bool)
    requires
        i < replicas.len(),
    ensures
        r == scheduler_model::may_give_way(
            replicas.deep_view(),
            healthy.deep_view(),
            i as int,
            s.deep_view(),
        ),
{
    let ghost ids = replicas.deep_view();
    assert(ids[i as int] == replicas@[i as int]@);
    match plan::find_slot(healthy.as_slice(), replicas[i].as_str()) {
        None => false,
        Some(r) => {
            if r.load < 2 || r.load - 2 < s.load {
                return false;
            }
            if text_eq(r.domain.as_str(), s.domain.as_str()) {
                return true;
            }
            let mut rest = copy_texts(replicas);
            assert(rest.deep_view().len() == ids.len());
            let _ = rest.remove(i);
            assert(rest.deep_view() =~= ids.remove(i as int));
            let used = plan::collect_domains(rest.as_slice(), healthy.as_slice());
            !used.contains(s.domain.as_str())
        },
    }
}

fn rebalance(replicas: Vec<NodeId>, healthy: &Vec<NodeSlot>) -> (r: Vec<NodeId>)
    ensures
        r.deep_view() == scheduler_model::rebalanced(replicas.deep_view(), healthy.deep_view()),
{
    let ghost ids = replicas.deep_view();
    let ghost slots = healthy.deep_view();
    let rest = plan::collect_others(healthy.as_slice(), replicas.as_slice());
    if rest.len() == 0 {
        return replicas;
    }
    let none = IdSet::new();
    let b: usize = plan::pick_best(rest.as_slice(), &none);
    let s = &rest[b];
    let ghost sm = s.deep_view();
    assert(sm == plan::others(slots, ids)[plan::best(plan::others(slots, ids), Set::empty())]);
    let mut victim: Option<usize> = None;
    let mut i: usize = 0;
    while i < replicas.len()
        invariant
            i <= replicas.len(),
            ids == replicas.deep_view(),
            slots == healthy.deep_view(),
            sm == s.deep_view(),
            match victim {
                Some(v) => v < i && scheduler_model::giving_way(ids, slots, sm, i as int) == Some(
                    v as int,
                ),
                None => scheduler_model::giving_way(ids, slots, sm, i as int) is None,
            },
        decreases replicas.len() - i,
    {
        if can_give_way(&replicas, healthy, i, s) {
            victim = match victim {
                None => Some(i),
                Some(v) => {
                    assert(ids[i as int] == replicas@[i as int]@);
                    assert(ids[v as int] == replicas@[v as int]@);
                    if plan::slot_load(healthy.as_slice(), replicas[i].as_str()) > plan::slot_load(
                        healthy.as_slice(),
                        replicas[v].as_str(),
                    ) {
                        Some(i)
                    } else {
                        Some(v)
                    }
                },
            };
        }
        i += 1;
    }
    let mut moved = replicas;
    if let Some(v) = victim {
        moved.set(v, s.node_id.clone());
        assert(moved.deep_view() =~= ids.update(v as int, sm.node_id));
    }
    moved
}

/// What one shard's reconciliation gives: the assignment to publish, if any, and the workers as
/// the next shard finds them.
struct Outcome {
    publish: Option<ShardAssignment>,
    workers: Vec<Worker>,
}

fn reconcile_shard(
    nodes: &Vec<NodeInfo>,
    placement: &Placement,
    rf: u32,
    workers: Vec<Worker>,
    shard: ShardId,
) -> (r: Outcome)
    ensures
        ({
            let scene = Scene {
                nodes: nodes.deep_view(),
                assignments: placement@.assignments,
                policies: placement@.policies,
                rf: rf as nat,
            };
            let w = workers.deep_view();
            &&& r.workers.deep_view() == scene.workers_after(w, shard)
            &&& r.publish.deep_view() == if !scene.held(w, shard) && scene.published(w, shard) {
                Some(scene.wanted(w, shard))
            } else {
                None
            }
        }),
{
    let ghost scene = Scene {
        nodes: nodes.deep_view(),
        assignments: placement@.assignments,
        policies: placement@.policies,
        rf: rf as nat,
    };
    let ghost w = workers.deep_view();
    let current = placement.get(shard);
    let ghost current_model = scene.current(shard);
    assert(current.deep_view() == current_model);
    let current_replicas: Vec<NodeId> = match &current {
        Some(a) => copy_texts(&a.replicas),
        None => find_observed_replicas(nodes, shard),
    };
    assert(current_replicas.deep_view() == scene.current_replicas(shard));
    if !are_known(nodes, &current_replicas) {
        return Outcome { publish: None, workers };
    }
    let slots = make_slots(&workers);
    let planned = plan_replicas(current_replicas.as_slice(), slots.as_slice(), rf);
    assert(planned.deep_view() == scene.planned(w, shard));
    if planned.len() < current_replicas.len() && planned.len() < rf as usize {
        return Outcome { publish: None, workers };
    }
    let settled: bool = match &current {
        Some(a) => texts_eq(&a.replicas, &planned),
        None => false,
    };
    let desired = if settled {
        rebalance(planned, &slots)
    } else {
        planned
    };
    assert(desired.deep_view() == scene.desired(w, shard));
    let ids = collect_ids(&workers);
    let previous: Option<NodeId> = match &current {
        Some(a) => copy_text_opt(&a.preferred_leader),
        None => None,
    };
    assert(previous.deep_view() == scene.previous_leader(shard));
    let unloaded = unload_all(workers, &current_replicas);
    let loaded = load_all(unloaded, &desired);
    let replaced = lead_less(loaded, &previous);
    assert(replaced.deep_view() == scene.replaced(w, shard));
    let policy = placement.policy(shard);
    assert(policy.deep_view() == scene.policy(shard));
    let observed = find_observed_leader(nodes, shard);
    let leader_slots = make_leader_slots(&replaced, &desired);
    let affinity = preferred_leader_for_policy(
        policy.as_ref(),
        desired.as_slice(),
        &ids,
        leader_slots.as_slice(),
        observed.as_ref(),
    );
    let leader = desired_leader(affinity.as_ref(), desired.as_slice(), &ids, observed.as_ref());
    assert(leader.deep_view() == scene.leader(w, shard));
    let after = lead_more(replaced, &leader);
    let (region, cloud) = match &policy {
        Some(p) => (copy_text_opt(&p.home_region), copy_text_opt(&p.preferred_cloud_provider)),
        None => (None, None),
    };
    let wanted = ShardAssignment {
        shard_id: shard,
        replicas: desired,
        preferred_leader: leader,
        preferred_region: region,
        preferred_cloud_provider: cloud,
    };
    assert(wanted.deep_view() == scene.wanted(w, shard));
    let changed: bool = match &current {
        None => wanted.replicas.len() > 0,
        Some(a) => !texts_eq(&a.replicas, &wanted.replicas) || !text_opt_eq(
            &a.preferred_leader,
            &wanted.preferred_leader,
        ) || !text_opt_eq(&a.preferred_region, &wanted.preferred_region) || !text_opt_eq(
            &a.preferred_cloud_provider,
            &wanted.preferred_cloud_provider,
        ),
    };
    Outcome {
        publish: if changed {
            Some(wanted)
        } else {
            None
        },
        workers: after,
    }
}

/// The commands one reconciliation publishes.
pub open spec fn reconciliation(s: StateModel) -> Seq<CommandModel> {
    let nodes = membership::listing(s.nodes);
    let listed = placement::assignment_listing(s.placement.assignments);
    let scene = scheduler_model::scene(
        nodes,
        s.placement.assignments,
        s.placement.policies,
        s.plan,
    );
    let workers = scheduler_model::first_workers(nodes, listed, s.plan);
    scene.assigns(workers, s.placement.shard_count as nat) + scheduler_model::forgets(nodes)
}

/// Recomputes every shard's desired replicas and leader, and gives the commands that change what
/// differs: an assignment for each shard that is not held and not as wanted, then a removal for
/// each drained node that reports hosting nothing.
pub fn reconcile_commands(membership: &Membership, placement: &Placement, plan: &ScalePlan) -> (r:
    Vec<Command>)
    ensures
        r.deep_view() == reconciliation(
            StateModel { nodes: membership.nodes(), placement: placement@, plan: *plan },
        ),
{
    let rf: u32 = if plan.replication_factor >= 1 {
        plan.replication_factor
    } else {
        1
    };
    let target: u32 = if plan.target_nodes >= rf {
        plan.target_nodes
    } else {
        rf
    };
    let nodes = membership.snapshot();
    let assignments = placement.snapshot();
    let healthy = collect_healthy(&nodes, &assignments);
    let mut workers = active_nodes_for_target(healthy, target as usize);
    let ghost scene = scheduler_model::scene(
        nodes.deep_view(),
        placement@.assignments,
        placement@.policies,
        *plan,
    );
    let ghost first = workers.deep_view();
    assert(first == scheduler_model::first_workers(
        nodes.deep_view(),
        assignments.deep_view(),
        *plan,
    ));
    let mut commands: Vec<Command> = Vec::new();
    assert(commands.deep_view() =~= Seq::<CommandModel>::empty());
    let shard_count: u32 = placement.shard_count();
    let mut shard: u32 = 0;
    while shard < shard_count
        invariant
            shard <= shard_count,
            scene == (Scene {
                nodes: nodes.deep_view(),
                assignments: placement@.assignments,
                policies: placement@.policies,
                rf: rf as nat,
            }),
            workers.deep_view() == scene.workers_at(first, shard as nat),
            commands.deep_view() == scene.assigns(first, shard as nat),
        decreases shard_count - shard,
    {
        let ghost at = workers.deep_view();
        let outcome = reconcile_shard(&nodes, placement, rf, workers, shard);
        workers = outcome.workers;
        if let Some(a) = outcome.publish {
            let ghost was = commands.deep_view();
            let ghost m = a.deep_view();
            commands.push(Command::AssignShard(a));
            assert(commands.deep_view() =~= was.push(CommandModel::AssignShard(m)));
        }
        shard += 1;
        assert((shard - 1) as nat as ShardId == (shard - 1) as ShardId);
    }
    let ghost assigns = commands.deep_view();
    let ghost model = nodes.deep_view();
    let mut i: usize = 0;
    assert(assigns + scheduler_model::forgets(model.take(0)) =~= assigns);
    while i < nodes.len()
        invariant
            i <= nodes.len(),
            model == nodes.deep_view(),
            commands.deep_view() == assigns + scheduler_model::forgets(model.take(i as int)),
        decreases nodes.len() - i,
    {
        assert(model.take(i + 1).drop_last() =~= model.take(i as int));
        assert(model.take(i + 1).last() == nodes@[i as int].deep_view());
        if nodes[i].health == NodeHealth::Draining && nodes[i].hosted_shards.len() == 0 {
            let ghost was = commands.deep_view();
            let ghost c = CommandModel::ForgetNode(nodes@[i as int].node_id@);
            commands.push(Command::ForgetNode(nodes[i].node_id.clone()));
            assert(commands.deep_view() =~= was.push(c));
            assert(commands.deep_view() =~= assigns + scheduler_model::forgets(model.take(i + 1)));
        }
        i += 1;
    }
    assert(model.take(model.len() as int) =~= model);
    commands
}

/// One reconciliation through a local control plane: every command is applied in order.
pub fn reconcile(cp: &mut LocalControlPlane)
    ensures
        final(cp)@ == old(cp)@.applied_all(reconciliation(old(cp)@)),
        final(cp).membership.config() == old(cp).membership.config(),
{
    let commands = reconcile_commands(&cp.membership, &cp.placement, &cp.plan);
    let ghost all = commands.deep_view();
    let ghost before = cp@;
    let mut i: usize = 0;
    assert(all.take(0) =~= Seq::<CommandModel>::empty());
    while i < commands.len()
        invariant
            i <= commands.len(),
            all == commands.deep_view(),
            cp@ == before.applied_all(all.take(i as int)),
            cp.membership.config() == old(cp).membership.config(),
        decreases commands.len() - i,
    {
        let _ = cp.propose(commands[i].clone());
        assert(all.take(i + 1).drop_last() =~= all.take(i as int));
        assert(all.take(i + 1).last() == commands@[i as int].deep_view());
        i += 1;
    }
    assert(all.take(all.len() as int) =~= all);
}

/// One tick of the background loop: a leader sweeps for failures and says which nodes are newly
/// dead and which commands follow; a follower stands by.
pub fn tick<O: LivenessOracle>(
    membership: &mut Membership,
    placement: &Placement,
    plan: &ScalePlan,
    is_leader: bool,
    now_ms: u64,
    oracle: &O,
) -> (r: (Vec<NodeId>, Vec<Command>))
    ensures
        final(membership).config() == old(membership).config(),
        !is_leader ==> final(membership).nodes() == old(membership).nodes()
            && r.0.deep_view() == Seq::<Seq<char>>::empty()
            && r.1.deep_view() == Seq::<CommandModel>::empty(),
        is_leader ==> {
            &&& final(membership).nodes() == Map::new(
                |k: Seq<char>| old(membership).nodes().dom().contains(k),
                |k: Seq<char>|
                    membership::swept(
                        old(membership).config(),
                        old(membership).nodes()[k],
                        now_ms,
                        oracle.verdict(k),
                    ),
            )
            &&& membership::lists_newly_dead(
                old(membership).nodes(),
                final(membership).nodes(),
                r.0.deep_view(),
            )
            &&& r.1.deep_view() == reconciliation(
                StateModel {
                    nodes: final(membership).nodes(),
                    placement: placement@,
                    plan: *plan,
                },
            )
        },
{
    if !is_leader {
        let dead: Vec<NodeId> = Vec::new();
        let commands: Vec<Command> = Vec::new();
        assert(dead.deep_view() =~= Seq::<Seq<char>>::empty());
        assert(commands.deep_view() =~= Seq::<CommandModel>::empty());
        return (dead, commands);
    }
    let dead = membership.sweep_with_oracle(now_ms, oracle);
    let commands = reconcile_commands(membership, placement, plan);
    (dead, commands)
}

} // verus!
