//! Placement math: given a shard's current replicas and the healthy candidate nodes,
//! [`plan_replicas`] gives the desired replica set.
//!
//! Balance objectives, in priority order: the replication factor, spread across distinct failure
//! domains, even replica load per node, then a stable tiebreak by node id, so that the plan is
//! deterministic and does not churn.

use crate::ids::IdSet;
use crate::model::NodeId;
use crate::plan_laws;
use crate::plan_meaning;
use crate::text;
use crate::text::{text_before, text_eq, texts_contain};
use vstd::prelude::*;

verus! {

/// A placement candidate: a healthy node, its failure domain, and how many replicas it already
/// holds.
#[derive(Debug)]
pub struct NodeSlot {
    pub node_id: NodeId,
    pub domain: String,
    pub load: u32,
}

/// The value of a [`NodeSlot`].
#[verifier::ext_equal]
pub struct SlotModel {
    pub node_id: Seq<char>,
    pub domain: Seq<char>,
    pub load: u32,
}

impl DeepView for NodeSlot {
    type V = SlotModel;

    open spec fn deep_view(&self) -> SlotModel {
        SlotModel { node_id: self.node_id@, domain: self.domain@, load: self.load }
    }
}

impl Clone for NodeSlot {
    fn clone(&self) -> (r: Self)
        ensures
            r.deep_view() == self.deep_view(),
    {
        NodeSlot { node_id: self.node_id.clone(), domain: self.domain.clone(), load: self.load }
    }
}

/// The first candidate slot of a node.
pub open spec fn slot_of(healthy: Seq<SlotModel>, id: Seq<char>) -> Option<SlotModel>
    decreases healthy.len(),
{
    if healthy.len() == 0 {
        None
    } else {
        match slot_of(healthy.drop_last(), id) {
            Some(s) => Some(s),
            None => if healthy.last().node_id == id {
                Some(healthy.last())
            } else {
                None
            },
        }
    }
}

/// The current replicas that are still candidates, in order.
pub open spec fn kept(current: Seq<Seq<char>>, healthy: Seq<SlotModel>) -> Seq<Seq<char>>
    decreases current.len(),
{
    if current.len() == 0 {
        Seq::empty()
    } else {
        let before = kept(current.drop_last(), healthy);
        if slot_of(healthy, current.last()) is Some {
            before.push(current.last())
        } else {
            before
        }
    }
}

/// The failure domains of the given nodes.
pub open spec fn domains(chosen: Seq<Seq<char>>, healthy: Seq<SlotModel>) -> Set<Seq<char>>
    decreases chosen.len(),
{
    if chosen.len() == 0 {
        Set::empty()
    } else {
        let before = domains(chosen.drop_last(), healthy);
        match slot_of(healthy, chosen.last()) {
            Some(s) => before.insert(s.domain),
            None => before,
        }
    }
}

/// The candidates that are not chosen, in order.
pub open spec fn others(healthy: Seq<SlotModel>, chosen: Seq<Seq<char>>) -> Seq<SlotModel>
    decreases healthy.len(),
{
    if healthy.len() == 0 {
        Seq::empty()
    } else {
        let before = others(healthy.drop_last(), chosen);
        if chosen.contains(healthy.last().node_id) {
            before
        } else {
            before.push(healthy.last())
        }
    }
}

/// Whether `a` is the better pick: a fresh failure domain first, then the lighter load, then the
/// lower node id.
pub open spec fn better(a: SlotModel, b: SlotModel, used: Set<Seq<char>>) -> bool {
    let a_fresh = !used.contains(a.domain);
    let b_fresh = !used.contains(b.domain);
    if a_fresh != b_fresh {
        a_fresh
    } else if a.load != b.load {
        a.load < b.load
    } else {
        text::text_lt(a.node_id, b.node_id)
    }
}

/// The position of the best candidate.
pub open spec fn best(slots: Seq<SlotModel>, used: Set<Seq<char>>) -> int
    decreases slots.len(),
{
    if slots.len() <= 1 {
        0
    } else {
        let b = best(slots.drop_last(), used);
        if better(slots.last(), slots[b], used) {
            slots.len() - 1
        } else {
            b
        }
    }
}

/// `chosen`, filled up to `rf` with the best candidates one after the other.
pub open spec fn filled(
    chosen: Seq<Seq<char>>,
    used: Set<Seq<char>>,
    remaining: Seq<SlotModel>,
    rf: int,
) -> Seq<Seq<char>>
    decreases remaining.len(),
{
    if chosen.len() >= rf || remaining.len() == 0 {
        chosen
    } else {
        proof {
            best_in_range(remaining, used);
        }
        let i = best(remaining, used);
        filled(
            chosen.push(remaining[i].node_id),
            used.insert(remaining[i].domain),
            remaining.remove(i),
            rf,
        )
    }
}

/// The load of a candidate.
pub open spec fn load_of(healthy: Seq<SlotModel>, id: Seq<char>) -> u32 {
    match slot_of(healthy, id) {
        Some(s) => s.load,
        None => 0,
    }
}

/// Where a node goes in a list that ascends by load: behind all that are not heavier.
pub open spec fn place_by_load(
    sorted: Seq<Seq<char>>,
    id: Seq<char>,
    healthy: Seq<SlotModel>,
) -> int
    decreases sorted.len(),
{
    if sorted.len() == 0 || load_of(healthy, sorted.last()) <= load_of(healthy, id) {
        sorted.len() as int
    } else {
        place_by_load(sorted.drop_last(), id, healthy)
    }
}

/// The nodes in ascending order of load; equal loads keep their order.
pub open spec fn by_load(chosen: Seq<Seq<char>>, healthy: Seq<SlotModel>) -> Seq<Seq<char>>
    decreases chosen.len(),
{
    if chosen.len() == 0 {
        Seq::empty()
    } else {
        let sorted = by_load(chosen.drop_last(), healthy);
        sorted.insert(place_by_load(sorted, chosen.last(), healthy), chosen.last())
    }
}

/// The desired replica set: the current replicas that are still candidates, filled up to `rf`;
/// when more of them are left than `rf`, the most loaded go.
pub open spec fn planned(
    current: Seq<Seq<char>>,
    healthy: Seq<SlotModel>,
    rf: int,
) -> Seq<Seq<char>> {
    let k = kept(current, healthy);
    if k.len() > rf {
        by_load(k, healthy).take(rf)
    } else {
        filled(k, domains(k, healthy), others(healthy, k), rf)
    }
}

/// The best slot is one of the slots.
pub proof fn best_in_range(slots: Seq<SlotModel>, used: Set<Seq<char>>)
    requires
        slots.len() > 0,
    ensures
        0 <= best(slots, used) < slots.len(),
    decreases slots.len(),
{
    if slots.len() > 1 {
        best_in_range(slots.drop_last(), used);
    }
}

/// The first candidate slot of a node, if it is one.
pub fn find_slot<'a>(healthy: &'a [NodeSlot], id: &str) -> (r: Option<&'a NodeSlot>)
    ensures
        match r {
            Some(s) => slot_of(healthy.deep_view(), id@) == Some(s.deep_view()),
            None => slot_of(healthy.deep_view(), id@) is None,
        },
{
    let ghost model = healthy.deep_view();
    let mut i: usize = 0;
    assert(model.take(0) =~= Seq::<SlotModel>::empty());
    while i < healthy.len()
        invariant
            i <= healthy.len(),
            model == healthy.deep_view(),
            slot_of(model.take(i as int), id@) is None,
        decreases healthy.len() - i,
    {
        assert(model.take(i + 1).drop_last() =~= model.take(i as int));
        assert(model.take(i + 1).last() == healthy@[i as int].deep_view());
        if text_eq(healthy[i].node_id.as_str(), id) {
            proof {
                slot_of_prefix(model, i + 1, id@);
            }
            return Some(&healthy[i]);
        }
        i += 1;
    }
    assert(model.take(model.len() as int) =~= model);
    None
}

proof fn slot_of_prefix(healthy: Seq<SlotModel>, n: int, id: Seq<char>)
    requires
        0 <= n <= healthy.len(),
        slot_of(healthy.take(n), id) is Some,
    ensures
        slot_of(healthy, id) == slot_of(healthy.take(n), id),
    decreases healthy.len() - n,
{
    if n < healthy.len() {
        assert(healthy.take(n + 1).drop_last() =~= healthy.take(n));
        slot_of_prefix(healthy, n + 1, id);
    } else {
        assert(healthy.take(n) =~= healthy);
    }
}

fn slot_better(a: &NodeSlot, b: &NodeSlot, used: &IdSet) -> (r: bool)
    ensures
        r == better(a.deep_view(), b.deep_view(), used@),
{
    let a_fresh: bool = !used.contains(a.domain.as_str());
    let b_fresh: bool = !used.contains(b.domain.as_str());
    if a_fresh != b_fresh {
        a_fresh
    } else if a.load != b.load {
        a.load < b.load
    } else {
        text_before(a.node_id.as_str(), b.node_id.as_str())
    }
}

/// The position of the best slot.
pub fn pick_best(slots: &[NodeSlot], used: &IdSet) -> (r: usize)
    requires
        slots.len() > 0,
    ensures
        r == best(slots.deep_view(), used@),
        r < slots.len(),
{
    let ghost model = slots.deep_view();
    let mut b: usize = 0;
    let mut i: usize = 1;
    assert(best(model.take(1), used@) == 0);
    while i < slots.len()
        invariant
            1 <= i <= slots.len(),
            b < i,
            model == slots.deep_view(),
            b == best(model.take(i as int), used@),
        decreases slots.len() - i,
    {
        assert(model.take(i + 1).drop_last() =~= model.take(i as int));
        if slot_better(&slots[i], &slots[b], used) {
            b = i;
        }
        i += 1;
    }
    assert(model.take(model.len() as int) =~= model);
    b
}

fn keep_candidates(current: &[NodeId], healthy: &[NodeSlot]) -> (r: Vec<NodeId>)
    ensures
        r.deep_view() == kept(current.deep_view(), healthy.deep_view()),
{
    let ghost model = current.deep_view();
    let mut r: Vec<NodeId> = Vec::new();
    let mut i: usize = 0;
    assert(r.deep_view() =~= kept(model.take(0), healthy.deep_view()));
    while i < current.len()
        invariant
            i <= current.len(),
            model == current.deep_view(),
            r.deep_view() == kept(model.take(i as int), healthy.deep_view()),
        decreases current.len() - i,
    {
        assert(model.take(i + 1).drop_last() =~= model.take(i as int));
        let ghost was = r.deep_view();
        if find_slot(healthy, current[i].as_str()).is_some() {
            r.push(current[i].clone());
            assert(r.deep_view() =~= was.push(model[i as int]));
        }
        i += 1;
    }
    assert(model.take(model.len() as int) =~= model);
    r
}

/// The failure domains of the chosen nodes.
pub fn collect_domains(chosen: &[NodeId], healthy: &[NodeSlot]) -> (r: IdSet)
    ensures
        r@ == domains(chosen.deep_view(), healthy.deep_view()),
{
    let ghost model = chosen.deep_view();
    let mut r = IdSet::new();
    let mut i: usize = 0;
    while i < chosen.len()
        invariant
            i <= chosen.len(),
            model == chosen.deep_view(),
            r@ == domains(model.take(i as int), healthy.deep_view()),
        decreases chosen.len() - i,
    {
        assert(model.take(i + 1).drop_last() =~= model.take(i as int));
        match find_slot(healthy, chosen[i].as_str()) {
            Some(s) => r.insert(s.domain.clone()),
            None => {},
        }
        i += 1;
    }
    assert(model.take(model.len() as int) =~= model);
    r
}

/// The candidates that are not chosen, in order.
pub fn collect_others(healthy: &[NodeSlot], chosen: &[NodeId]) -> (r: Vec<NodeSlot>)
    ensures
        r.deep_view() == others(healthy.deep_view(), chosen.deep_view()),
{
    let ghost model = healthy.deep_view();
    let mut r: Vec<NodeSlot> = Vec::new();
    let mut i: usize = 0;
    assert(r.deep_view() =~= others(model.take(0), chosen.deep_view()));
    while i < healthy.len()
        invariant
            i <= healthy.len(),
            model == healthy.deep_view(),
            r.deep_view() == others(model.take(i as int), chosen.deep_view()),
        decreases healthy.len() - i,
    {
        assert(model.take(i + 1).drop_last() =~= model.take(i as int));
        let ghost was = r.deep_view();
        if !texts_contain(chosen, healthy[i].node_id.as_str()) {
            r.push(healthy[i].clone());
            assert(r.deep_view() =~= was.push(model[i as int]));
        }
        i += 1;
    }
    assert(model.take(model.len() as int) =~= model);
    r
}

/// The load of a node, 0 where it is no candidate.
pub fn slot_load(healthy: &[NodeSlot], id: &str) -> (r: u32)
    ensures
        r == load_of(healthy.deep_view(), id@),
{
    match find_slot(healthy, id) {
        Some(s) => s.load,
        None => 0,
    }
}

fn sort_by_load(chosen: &[NodeId], healthy: &[NodeSlot]) -> (r: Vec<NodeId>)
    ensures
        r.deep_view() == by_load(chosen.deep_view(), healthy.deep_view()),
        r.len() == chosen.len(),
{
    let ghost model = chosen.deep_view();
    let ghost slots = healthy.deep_view();
    let mut r: Vec<NodeId> = Vec::new();
    let mut i: usize = 0;
    assert(r.deep_view() =~= by_load(model.take(0), slots));
    while i < chosen.len()
        invariant
            i <= chosen.len(),
            r.len() == i,
            model == chosen.deep_view(),
            slots == healthy.deep_view(),
            r.deep_view() == by_load(model.take(i as int), slots),
        decreases chosen.len() - i,
    {
        assert(model.take(i + 1).drop_last() =~= model.take(i as int));
        let ghost was = r.deep_view();
        let load: u32 = slot_load(healthy, chosen[i].as_str());
        let mut at: usize = r.len();
        assert(was.take(at as int) =~= was);
        while at > 0 && slot_load(healthy, r[at - 1].as_str()) > load
            invariant
                at <= r.len(),
                was == r.deep_view(),
                slots == healthy.deep_view(),
                load == load_of(slots, model[i as int]),
                place_by_load(was.take(at as int), model[i as int], slots) == place_by_load(
                    was,
                    model[i as int],
                    slots,
                ),
            decreases at,
        {
            assert(was.take(at as int).drop_last() =~= was.take(at - 1));
            at -= 1;
        }
        proof {
            if at > 0 {
                assert(was.take(at as int).last() == was[at - 1]);
            }
        }
        r.insert(at, chosen[i].clone());
        assert(r.deep_view() =~= was.insert(at as int, model[i as int]));
        i += 1;
    }
    assert(model.take(model.len() as int) =~= model);
    r
}

/// Computes the desired replica set for one shard.
///
/// Keeps the current replicas that are still healthy (no needless data movement), drops the rest,
/// and fills up to `rf` from the healthy candidates: a fresh failure domain first, then the least
/// loaded node, then the lowest node id.
pub fn plan_replicas(current: &[NodeId], healthy: &[NodeSlot], rf: u32) -> (r: Vec<NodeId>)
    ensures
        r.deep_view() == planned(current.deep_view(), healthy.deep_view(), rf as int),
        plan_laws::listed_once(healthy.deep_view()) ==> plan_meaning::right_plan(
            r.deep_view(),
            current.deep_view(),
            healthy.deep_view(),
            rf as int,
        ),
{
    proof {
        if plan_laws::listed_once(healthy.deep_view()) {
            plan_meaning::plan_is_right(current.deep_view(), healthy.deep_view(), rf as int);
        }
    }
    let mut chosen = keep_candidates(current, healthy);
    if chosen.len() > rf as usize {
        let mut sorted = sort_by_load(chosen.as_slice(), healthy);
        let ghost all = sorted.deep_view();
        sorted.truncate(rf as usize);
        assert(sorted.deep_view() =~= all.take(rf as int));
        return sorted;
    }
    let mut used = collect_domains(chosen.as_slice(), healthy);
    let mut remaining = collect_others(healthy, chosen.as_slice());
    let ghost plan = planned(current.deep_view(), healthy.deep_view(), rf as int);
    while chosen.len() < rf as usize && remaining.len() > 0
        invariant
            plan == filled(chosen.deep_view(), used@, remaining.deep_view(), rf as int),
        decreases remaining.len(),
    {
        let ghost c0 = chosen.deep_view();
        let ghost r0 = remaining.deep_view();
        let ghost u0 = used@;
        let i: usize = pick_best(remaining.as_slice(), &used);
        let slot = remaining.remove(i);
        used.insert(slot.domain);
        chosen.push(slot.node_id);
        assert(chosen.deep_view() =~= c0.push(r0[i as int].node_id));
        assert(remaining.deep_view() =~= r0.remove(i as int));
        assert(used@ == u0.insert(r0[i as int].domain));
    }
    chosen
}

} // verus!
