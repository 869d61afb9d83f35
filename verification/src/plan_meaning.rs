//! What a placement plan is, said of its nodes, domains and loads: who stays, who is added, and
//! who goes.

use crate::plan;
use crate::plan::SlotModel;
use crate::plan_laws;
use crate::text;
use vstd::prelude::*;

verus! {

/// Whether a node is a candidate.
pub open spec fn is_candidate(healthy: Seq<SlotModel>, id: Seq<char>) -> bool {
    exists|i: int| 0 <= i < healthy.len() && (#[trigger] healthy[i]).node_id == id
}

/// Whether a node is a candidate in a failure domain.
pub open spec fn stands_in(healthy: Seq<SlotModel>, id: Seq<char>, domain: Seq<char>) -> bool {
    exists|i: int|
        0 <= i < healthy.len() && (#[trigger] healthy[i]).node_id == id && healthy[i].domain
            == domain
}

/// Whether a node is a candidate with a load.
pub open spec fn weighs(healthy: Seq<SlotModel>, id: Seq<char>, load: u32) -> bool {
    exists|i: int|
        0 <= i < healthy.len() && (#[trigger] healthy[i]).node_id == id && healthy[i].load == load
}

/// Whether none of the chosen nodes is in a failure domain.
pub open spec fn is_fresh(
    healthy: Seq<SlotModel>,
    chosen: Seq<Seq<char>>,
    domain: Seq<char>,
) -> bool {
    forall|i: int| 0 <= i < chosen.len() ==> !stands_in(healthy, #[trigger] chosen[i], domain)
}

/// Whether candidate `k` is the right one to add to those chosen: it is not among them, and of all
/// candidates that are not, none is in a fresh failure domain unless it is, none of its kind in
/// this is less loaded, and none that is as little loaded has a lower id.
pub open spec fn is_right_fill(
    healthy: Seq<SlotModel>,
    chosen: Seq<Seq<char>>,
    k: int,
) -> bool {
    let p = healthy[k];
    &&& 0 <= k < healthy.len()
    &&& !chosen.contains(p.node_id)
    &&& forall|j: int|
        0 <= j < healthy.len() && !chosen.contains((#[trigger] healthy[j]).node_id) ==> {
            let c = healthy[j];
            let fresh = is_fresh(healthy, chosen, p.domain);
            &&& is_fresh(healthy, chosen, c.domain) ==> fresh
            &&& is_fresh(healthy, chosen, c.domain) == fresh ==> {
                &&& p.load <= c.load
                &&& p.load == c.load ==> p.node_id == c.node_id || text::text_lt(
                    p.node_id,
                    c.node_id,
                )
            }
        }
}

/// Whether the node at `k` is the right one to add to those before it.
pub open spec fn is_filled_at(healthy: Seq<SlotModel>, p: Seq<Seq<char>>, k: int) -> bool {
    exists|i: int|
        is_right_fill(healthy, p.take(k), i) && (#[trigger] healthy[i]).node_id == p[k]
}

/// Those of some nodes that are candidates with a load, in order.
pub open spec fn with_load(ids: Seq<Seq<char>>, healthy: Seq<SlotModel>, load: u32) -> Seq<
    Seq<char>,
> {
    ids.filter(|x: Seq<char>| weighs(healthy, x, load))
}

/// Whether `sorted` is a list of candidates in ascending order of load, with those of one load in
/// the order they had.
pub open spec fn sorts_by_load(
    sorted: Seq<Seq<char>>,
    ids: Seq<Seq<char>>,
    healthy: Seq<SlotModel>,
) -> bool {
    &&& sorted.len() == ids.len()
    &&& forall|i: int, j: int, a: u32, b: u32|
        #![trigger weighs(healthy, sorted[i], a), weighs(healthy, sorted[j], b)]
        0 <= i <= j < sorted.len() && weighs(healthy, sorted[i], a) && weighs(
            healthy,
            sorted[j],
            b,
        ) ==> a <= b
    &&& forall|l: u32| #[trigger]
        with_load(sorted, healthy, l) == with_load(ids, healthy, l)
}

/// The current replicas that are candidates.
pub open spec fn staying(current: Seq<Seq<char>>, healthy: Seq<SlotModel>) -> Seq<Seq<char>> {
    current.filter(|id: Seq<char>| is_candidate(healthy, id))
}

/// Whether a replica set is the right one. The current replicas that are candidates stay, in front
/// and in order, and one right candidate after the other is added until there are `rf` replicas or
/// no candidate is left. Where more would stay than `rf`, the most loaded go.
pub open spec fn right_plan(
    p: Seq<Seq<char>>,
    current: Seq<Seq<char>>,
    healthy: Seq<SlotModel>,
    rf: int,
) -> bool {
    let stay = staying(current, healthy);
    if stay.len() <= rf {
        &&& p.len() >= stay.len()
        &&& p.take(stay.len() as int) == stay
        &&& p.len() <= rf
        &&& p.len() < rf ==> forall|i: int|
            0 <= i < healthy.len() ==> p.contains((#[trigger] healthy[i]).node_id)
        &&& forall|k: int| stay.len() <= k < p.len() ==> #[trigger] is_filled_at(healthy, p, k)
    } else {
        exists|sorted: Seq<Seq<char>>| #[trigger]
            sorts_by_load(sorted, stay, healthy) && p == sorted.take(rf)
    }
}

proof fn slot_and_candidate(healthy: Seq<SlotModel>, id: Seq<char>, domain: Seq<char>, load: u32)
    requires
        plan_laws::listed_once(healthy),
    ensures
        plan::slot_of(healthy, id) is Some <==> is_candidate(healthy, id),
        stands_in(healthy, id, domain) <==> (plan::slot_of(healthy, id) matches Some(s) && s.domain
            == domain),
        weighs(healthy, id, load) <==> (plan::slot_of(healthy, id) matches Some(s) && s.load
            == load),
        weighs(healthy, id, load) ==> plan::load_of(healthy, id) == load,
        is_candidate(healthy, id) ==> weighs(healthy, id, plan::load_of(healthy, id)),
{
    plan_laws::slot_of_is_listed(healthy, id);
    if is_candidate(healthy, id) {
        let i = choose|i: int| 0 <= i < healthy.len() && (#[trigger] healthy[i]).node_id == id;
        plan_laws::slot_of_listed_once(healthy, i);
        assert(stands_in(healthy, id, healthy[i].domain));
        assert(weighs(healthy, id, healthy[i].load));
        if stands_in(healthy, id, domain) {
            let j = choose|j: int|
                0 <= j < healthy.len() && (#[trigger] healthy[j]).node_id == id
                    && healthy[j].domain == domain;
            plan_laws::slot_of_listed_once(healthy, j);
        }
        if weighs(healthy, id, load) {
            let j = choose|j: int|
                0 <= j < healthy.len() && (#[trigger] healthy[j]).node_id == id && healthy[j].load
                    == load;
            plan_laws::slot_of_listed_once(healthy, j);
        }
    }
}

proof fn kept_is_staying(current: Seq<Seq<char>>, healthy: Seq<SlotModel>)
    requires
        plan_laws::listed_once(healthy),
    ensures
        plan::kept(current, healthy) == staying(current, healthy),
    decreases current.len(),
{
    reveal(Seq::filter);
    if current.len() > 0 {
        kept_is_staying(current.drop_last(), healthy);
        slot_and_candidate(healthy, current.last(), Seq::empty(), 0);
    }
}

/// A failure domain is used exactly where it is not fresh.
pub proof fn used_is_not_fresh(healthy: Seq<SlotModel>, chosen: Seq<Seq<char>>, d: Seq<char>)
    requires
        plan_laws::listed_once(healthy),
    ensures
        plan::domains(chosen, healthy).contains(d) <==> !is_fresh(healthy, chosen, d),
{
    plan_laws::domains_of_candidates(chosen, healthy);
    if plan::domains(chosen, healthy).contains(d) {
        let k = choose|k: int|
            0 <= k < chosen.len() && (plan::slot_of(healthy, #[trigger] chosen[k]) matches Some(s)
                && s.domain == d);
        slot_and_candidate(healthy, chosen[k], d, 0);
    }
    if !is_fresh(healthy, chosen, d) {
        let i = choose|i: int|
            0 <= i < chosen.len() && stands_in(healthy, #[trigger] chosen[i], d);
        slot_and_candidate(healthy, chosen[i], d, 0);
    }
}

/// The candidate that is picked is in a fresh failure domain where there is one, is the least
/// loaded of its kind, and has the lowest id of those that are as little loaded.
pub proof fn pick_is_fresh_light_and_low(slots: Seq<SlotModel>, used: Set<Seq<char>>, j: int)
    requires
        0 <= j < slots.len(),
    ensures
        ({
            let p = slots[plan::best(slots, used)];
            let c = slots[j];
            &&& used.contains(p.domain) ==> used.contains(c.domain)
            &&& used.contains(p.domain) == used.contains(c.domain) ==> {
                &&& p.load <= c.load
                &&& p.load == c.load ==> p.node_id == c.node_id || text::text_lt(
                    p.node_id,
                    c.node_id,
                )
            }
        }),
{
    plan_laws::pick_is_best(slots, used, j);
    text::text_lt_total(slots[plan::best(slots, used)].node_id, slots[j].node_id);
}

proof fn fills_are_right(
    healthy: Seq<SlotModel>,
    chosen: Seq<Seq<char>>,
    used: Set<Seq<char>>,
    remaining: Seq<SlotModel>,
    rf: int,
)
    requires
        plan_laws::listed_once(healthy),
        plan_laws::listed_once(remaining),
        used == plan::domains(chosen, healthy),
        forall|s: SlotModel| #[trigger]
            remaining.contains(s) <==> healthy.contains(s) && !chosen.contains(s.node_id),
        chosen.len() <= rf,
    ensures
        ({
            let f = plan::filled(chosen, used, remaining, rf);
            &&& chosen.len() <= f.len() <= rf
            &&& f.take(chosen.len() as int) == chosen
            &&& f.len() < rf ==> forall|i: int|
                0 <= i < healthy.len() ==> f.contains((#[trigger] healthy[i]).node_id)
            &&& forall|k: int|
                chosen.len() <= k < f.len() ==> #[trigger] is_filled_at(healthy, f, k)
        }),
    decreases remaining.len(),
{
    let f = plan::filled(chosen, used, remaining, rf);
    if chosen.len() >= rf || remaining.len() == 0 {
        assert(f.take(chosen.len() as int) =~= chosen);
        if f.len() < rf {
            assert forall|i: int| 0 <= i < healthy.len() implies f.contains(
                (#[trigger] healthy[i]).node_id,
            ) by {
                assert(healthy.contains(healthy[i]));
                assert(!remaining.contains(healthy[i]));
            }
        }
    } else {
        plan::best_in_range(remaining, used);
        let b = plan::best(remaining, used);
        let p = remaining[b];
        let c = chosen.push(p.node_id);
        let u = used.insert(p.domain);
        let r = remaining.remove(b);
        assert(remaining.contains(p));
        let at = choose|at: int| 0 <= at < healthy.len() && healthy[at] == p;
        plan_laws::slot_of_listed_once(healthy, at);
        assert(c.drop_last() =~= chosen);
        plan_laws::without_one(remaining, b);
        assert forall|s: SlotModel| #[trigger] r.contains(s) <==> healthy.contains(s)
            && !c.contains(s.node_id) by {
            assert(remaining.contains(s) <==> healthy.contains(s) && !chosen.contains(s.node_id));
            assert(c.contains(s.node_id) <==> chosen.contains(s.node_id) || s.node_id
                == p.node_id) by {
                if chosen.contains(s.node_id) {
                    let i = choose|i: int| 0 <= i < chosen.len() && chosen[i] == s.node_id;
                    assert(c[i] == s.node_id);
                }
                assert(c[chosen.len() as int] == p.node_id);
                if c.contains(s.node_id) {
                    let i = choose|i: int| 0 <= i < c.len() && c[i] == s.node_id;
                    if i < chosen.len() {
                        assert(chosen[i] == s.node_id);
                    }
                }
            }
            if healthy.contains(s) && s.node_id == p.node_id {
                let i = choose|i: int| 0 <= i < healthy.len() && healthy[i] == s;
                plan_laws::slot_of_listed_once(healthy, i);
            }
        }
        fills_are_right(healthy, c, u, r, rf);
        assert(f == plan::filled(c, u, r, rf));
        assert(f.take(chosen.len() as int) =~= f.take(c.len() as int).take(chosen.len() as int));
        assert(c.take(chosen.len() as int) =~= chosen);
        assert(is_right_fill(healthy, chosen, at)) by {
            assert forall|j: int|
                0 <= j < healthy.len() && !chosen.contains(
                    (#[trigger] healthy[j]).node_id,
                ) implies {
                let o = healthy[j];
                let fresh = is_fresh(healthy, chosen, p.domain);
                &&& is_fresh(healthy, chosen, o.domain) ==> fresh
                &&& is_fresh(healthy, chosen, o.domain) == fresh ==> {
                    &&& p.load <= o.load
                    &&& p.load == o.load ==> p.node_id == o.node_id || text::text_lt(
                        p.node_id,
                        o.node_id,
                    )
                }
            } by {
                assert(healthy.contains(healthy[j]));
                assert(remaining.contains(healthy[j]));
                let x = choose|x: int| 0 <= x < remaining.len() && remaining[x] == healthy[j];
                pick_is_fresh_light_and_low(remaining, used, x);
                used_is_not_fresh(healthy, chosen, p.domain);
                used_is_not_fresh(healthy, chosen, healthy[j].domain);
            }
        }
        assert forall|k: int| chosen.len() <= k < f.len() implies #[trigger] is_filled_at(
            healthy,
            f,
            k,
        ) by {
            if k == chosen.len() {
                assert(f[k] == f.take(c.len() as int)[k]);
                assert(f[k] == p.node_id);
                assert(f.take(k) =~= chosen);
                assert(healthy[at].node_id == f[k]);
            }
        }
    }
}

proof fn placed_by_load(sorted: Seq<Seq<char>>, id: Seq<char>, healthy: Seq<SlotModel>)
    ensures
        ({
            let at = plan::place_by_load(sorted, id, healthy);
            &&& 0 <= at <= sorted.len()
            &&& forall|i: int|
                at <= i < sorted.len() ==> plan::load_of(healthy, #[trigger] sorted[i])
                    > plan::load_of(healthy, id)
        }),
    decreases sorted.len(),
{
    if sorted.len() > 0 && plan::load_of(healthy, sorted.last()) > plan::load_of(healthy, id) {
        placed_by_load(sorted.drop_last(), id, healthy);
        let at = plan::place_by_load(sorted.drop_last(), id, healthy);
        assert forall|i: int| at <= i < sorted.len() implies plan::load_of(
            healthy,
            #[trigger] sorted[i],
        ) > plan::load_of(healthy, id) by {
            if i < sorted.len() - 1 {
                assert(sorted.drop_last()[i] == sorted[i]);
            }
        }
    }
}

proof fn none_pass(s: Seq<Seq<char>>, p: spec_fn(Seq<char>) -> bool)
    requires
        forall|i: int| 0 <= i < s.len() ==> !p(#[trigger] s[i]),
    ensures
        s.filter(p) == Seq::<Seq<char>>::empty(),
    decreases s.len(),
{
    reveal(Seq::filter);
    if s.len() > 0 {
        let rest = s.drop_last();
        assert forall|i: int| 0 <= i < rest.len() implies !p(#[trigger] rest[i]) by {
            assert(rest[i] == s[i]);
        }
        none_pass(rest, p);
        assert(!p(s[s.len() - 1]));
    }
}

proof fn filtered_sorts(ids: Seq<Seq<char>>, healthy: Seq<SlotModel>, l: u32)
    requires
        plan_laws::listed_once(healthy),
        forall|i: int| 0 <= i < ids.len() ==> is_candidate(healthy, #[trigger] ids[i]),
    ensures
        with_load(plan::by_load(ids, healthy), healthy, l) == with_load(ids, healthy, l),
        plan::by_load(ids, healthy).len() == ids.len(),
        forall|i: int|
            0 <= i < ids.len() ==> is_candidate(healthy, #[trigger] plan::by_load(ids, healthy)[i]),
    decreases ids.len(),
{
    reveal(Seq::filter);
    let p = |x: Seq<char>| weighs(healthy, x, l);
    if ids.len() > 0 {
        let rest = ids.drop_last();
        let id = ids.last();
        assert forall|i: int| 0 <= i < rest.len() implies is_candidate(
            healthy,
            #[trigger] rest[i],
        ) by {
            assert(rest[i] == ids[i]);
        }
        filtered_sorts(rest, healthy, l);
        let sorted = plan::by_load(rest, healthy);
        let at = plan::place_by_load(sorted, id, healthy);
        placed_by_load(sorted, id, healthy);
        let (a, b) = (sorted.take(at), sorted.skip(at));
        let now = sorted.insert(at, id);
        assert(now =~= a.push(id) + b);
        assert(sorted =~= a + b);
        Seq::filter_distributes_over_add(a.push(id), b, p);
        Seq::filter_distributes_over_add(a, b, p);
        assert(a.push(id).drop_last() =~= a);
        assert(is_candidate(healthy, ids[ids.len() - 1]));
        slot_and_candidate(healthy, id, Seq::empty(), l);
        if p(id) {
            assert forall|i: int| 0 <= i < b.len() implies !p(#[trigger] b[i]) by {
                assert(b[i] == sorted[at + i]);
                slot_and_candidate(healthy, b[i], Seq::empty(), l);
            }
            none_pass(b, p);
            assert(now.filter(p) =~= sorted.filter(p).push(id));
        } else {
            assert(now.filter(p) =~= sorted.filter(p));
        }
        assert forall|i: int| 0 <= i < ids.len() implies is_candidate(
            healthy,
            #[trigger] now[i],
        ) by {
            if i != at {
                assert(now[i] == sorted[if i < at { i } else { i - 1 }]);
            }
        }
    }
}

/// A plan is the right one.
pub proof fn plan_is_right(current: Seq<Seq<char>>, healthy: Seq<SlotModel>, rf: int)
    requires
        rf >= 0,
        plan_laws::listed_once(healthy),
    ensures
        right_plan(plan::planned(current, healthy, rf), current, healthy, rf),
{
    let stay = staying(current, healthy);
    kept_is_staying(current, healthy);
    if stay.len() <= rf {
        plan_laws::others_are_candidates(healthy, stay);
        let o = plan::others(healthy, stay);
        assert forall|s: SlotModel| #[trigger] o.contains(s) <==> healthy.contains(s)
            && !stay.contains(s.node_id) by {
            if o.contains(s) {
                let k = choose|k: int| 0 <= k < o.len() && o[k] == s;
                assert(healthy.contains(o[k]));
            }
            if healthy.contains(s) && !stay.contains(s.node_id) {
                let i = choose|i: int| 0 <= i < healthy.len() && healthy[i] == s;
                assert(o.contains(healthy[i]));
            }
        }
        fills_are_right(healthy, stay, plan::domains(stay, healthy), o, rf);
    } else {
        let sorted = plan::by_load(stay, healthy);
        plan_laws::by_load_ascends(stay, healthy);
        assert forall|i: int| 0 <= i < stay.len() implies is_candidate(
            healthy,
            #[trigger] stay[i],
        ) by {
            broadcast use vstd::seq_lib::group_filter_ensures;

        }
        filtered_sorts(stay, healthy, 0);
        assert forall|i: int, j: int, a: u32, b: u32|
            #![trigger weighs(healthy, sorted[i], a), weighs(healthy, sorted[j], b)]
            0 <= i <= j < sorted.len() && weighs(healthy, sorted[i], a) && weighs(
                healthy,
                sorted[j],
                b,
            ) implies a <= b by {
            slot_and_candidate(healthy, sorted[i], Seq::empty(), a);
            slot_and_candidate(healthy, sorted[j], Seq::empty(), b);
            assert(plan::load_of(healthy, sorted[i]) <= plan::load_of(healthy, sorted[j]));
        }
        assert forall|l: u32| #[trigger]
            with_load(sorted, healthy, l) == with_load(stay, healthy, l) by {
            filtered_sorts(stay, healthy, l);
        }
        assert(sorts_by_load(sorted, stay, healthy));
    }
}

} // verus!
