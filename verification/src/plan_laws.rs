//! What every placement plan keeps.

use crate::plan;
use crate::plan::SlotModel;
use crate::text;
use vstd::prelude::*;

verus! {

/// Whether every candidate is listed once.
pub open spec fn listed_once(healthy: Seq<SlotModel>) -> bool {
    forall|i: int, j: int|
        0 <= i < j < healthy.len() ==> (#[trigger] healthy[i]).node_id != (
        #[trigger] healthy[j]).node_id
}

proof fn better_is_transitive(a: SlotModel, b: SlotModel, c: SlotModel, used: Set<Seq<char>>)
    requires
        !plan::better(b, a, used),
        !plan::better(c, b, used),
    ensures
        !plan::better(c, a, used),
{
    text::text_lt_total(a.node_id, b.node_id);
    text::text_lt_total(b.node_id, c.node_id);
    text::text_lt_total(a.node_id, c.node_id);
    text::text_lt_irreflexive(a.node_id);
    text::text_lt_irreflexive(b.node_id);
    text::text_lt_irreflexive(c.node_id);
    if text::text_lt(a.node_id, b.node_id) && text::text_lt(b.node_id, c.node_id) {
        text::text_lt_transitive(a.node_id, b.node_id, c.node_id);
    }
    if text::text_lt(c.node_id, a.node_id) && text::text_lt(a.node_id, c.node_id) {
        text::text_lt_transitive(c.node_id, a.node_id, c.node_id);
    }
    if text::text_lt(c.node_id, a.node_id) && text::text_lt(a.node_id, b.node_id) {
        text::text_lt_transitive(c.node_id, a.node_id, b.node_id);
    }
    if text::text_lt(b.node_id, c.node_id) && text::text_lt(c.node_id, b.node_id) {
        text::text_lt_transitive(b.node_id, c.node_id, b.node_id);
    }
}

proof fn better_is_asymmetric(a: SlotModel, b: SlotModel, used: Set<Seq<char>>)
    requires
        plan::better(a, b, used),
    ensures
        !plan::better(b, a, used),
{
    if text::text_lt(a.node_id, b.node_id) && text::text_lt(b.node_id, a.node_id) {
        text::text_lt_transitive(a.node_id, b.node_id, a.node_id);
        text::text_lt_irreflexive(a.node_id);
    }
}

/// No candidate is a better pick than the one that is picked.
pub proof fn pick_is_best(slots: Seq<SlotModel>, used: Set<Seq<char>>, j: int)
    requires
        0 <= j < slots.len(),
    ensures
        !plan::better(slots[j], slots[plan::best(slots, used)], used),
    decreases slots.len(),
{
    text::text_lt_irreflexive(slots[j].node_id);
    if slots.len() > 1 {
        let rest = slots.drop_last();
        let b = plan::best(rest, used);
        plan::best_in_range(rest, used);
        let last = slots.last();
        if j < slots.len() - 1 {
            pick_is_best(rest, used, j);
            assert(rest[j] == slots[j]);
            if plan::better(last, slots[b], used) {
                better_is_asymmetric(last, slots[b], used);
                better_is_transitive(last, slots[b], slots[j], used);
            }
        }
    }
}

/// A fill takes a fresh failure domain whenever a candidate offers one.
pub proof fn pick_prefers_fresh_domain(slots: Seq<SlotModel>, used: Set<Seq<char>>, j: int)
    requires
        0 <= j < slots.len(),
        !used.contains(slots[j].domain),
    ensures
        !used.contains(slots[plan::best(slots, used)].domain),
{
    pick_is_best(slots, used, j);
}

/// A slot found for a node is a candidate with that id.
pub proof fn slot_of_is_listed(healthy: Seq<SlotModel>, id: Seq<char>)
    ensures
        plan::slot_of(healthy, id) is Some <==> exists|i: int|
            0 <= i < healthy.len() && (#[trigger] healthy[i]).node_id == id,
        plan::slot_of(healthy, id) matches Some(s) ==> s.node_id == id,
    decreases healthy.len(),
{
    if healthy.len() > 0 {
        let rest = healthy.drop_last();
        slot_of_is_listed(rest, id);
        if plan::slot_of(rest, id) is Some {
            let i = choose|i: int| 0 <= i < rest.len() && (#[trigger] rest[i]).node_id == id;
            assert(healthy[i].node_id == id);
        } else if healthy.last().node_id == id {
            assert(healthy[healthy.len() - 1].node_id == id);
        } else if exists|i: int| 0 <= i < healthy.len() && (#[trigger] healthy[i]).node_id == id {
            let i = choose|i: int| 0 <= i < healthy.len() && (#[trigger] healthy[i]).node_id == id;
            assert(i < rest.len());
            assert(rest[i].node_id == id);
        }
    }
}

/// Where every candidate is listed once, the slot found for a candidate is its own.
pub proof fn slot_of_listed_once(healthy: Seq<SlotModel>, i: int)
    requires
        listed_once(healthy),
        0 <= i < healthy.len(),
    ensures
        plan::slot_of(healthy, healthy[i].node_id) == Some(healthy[i]),
    decreases healthy.len(),
{
    let rest = healthy.drop_last();
    if i < rest.len() {
        slot_of_listed_once(rest, i);
    } else {
        slot_of_is_listed(rest, healthy[i].node_id);
        if plan::slot_of(rest, healthy[i].node_id) is Some {
            let j = choose|j: int|
                0 <= j < rest.len() && (#[trigger] rest[j]).node_id == healthy[i].node_id;
            assert(healthy[j] == rest[j]);
        }
    }
}

/// The candidates that are not chosen are exactly those, each as listed.
pub proof fn others_are_candidates(healthy: Seq<SlotModel>, chosen: Seq<Seq<char>>)
    ensures
        plan::others(healthy, chosen).len() <= healthy.len(),
        forall|k: int|
            0 <= k < plan::others(healthy, chosen).len() ==> {
                &&& healthy.contains(#[trigger] plan::others(healthy, chosen)[k])
                &&& !chosen.contains(plan::others(healthy, chosen)[k].node_id)
            },
        forall|i: int|
            0 <= i < healthy.len() && !chosen.contains((#[trigger] healthy[i]).node_id)
                ==> plan::others(healthy, chosen).contains(healthy[i]),
        listed_once(healthy) ==> listed_once(plan::others(healthy, chosen)),
    decreases healthy.len(),
{
    if healthy.len() > 0 {
        let rest = healthy.drop_last();
        others_are_candidates(rest, chosen);
        let o = plan::others(healthy, chosen);
        let p = plan::others(rest, chosen);
        let last = healthy.last();
        assert forall|k: int| 0 <= k < o.len() implies healthy.contains(#[trigger] o[k])
            && !chosen.contains(o[k].node_id) by {
            if k < p.len() {
                assert(o[k] == p[k]);
                let i = choose|i: int| 0 <= i < rest.len() && rest[i] == p[k];
                assert(healthy[i] == o[k]);
            } else {
                assert(healthy[healthy.len() - 1] == o[k]);
            }
        }
        assert forall|i: int|
            0 <= i < healthy.len() && !chosen.contains(
                (#[trigger] healthy[i]).node_id,
            ) implies o.contains(healthy[i]) by {
            if i < rest.len() {
                assert(rest[i] == healthy[i]);
                let k = choose|k: int| 0 <= k < p.len() && p[k] == rest[i];
                assert(o[k] == healthy[i]);
            } else {
                assert(o[p.len() as int] == healthy[i]);
            }
        }
        if listed_once(healthy) {
            assert(listed_once(rest)) by {
                assert forall|i: int, j: int| 0 <= i < j < rest.len() implies (
                #[trigger] rest[i]).node_id != (#[trigger] rest[j]).node_id by {
                    assert(rest[i] == healthy[i] && rest[j] == healthy[j]);
                }
            }
            assert forall|i: int, j: int| 0 <= i < j < o.len() implies (#[trigger] o[i]).node_id != (
            #[trigger] o[j]).node_id by {
                assert(o[i] == p[i]);
                if j < p.len() {
                    assert(o[j] == p[j]);
                } else {
                    assert(rest.contains(p[i]));
                    let x = choose|x: int| 0 <= x < rest.len() && rest[x] == p[i];
                    assert(healthy[x] == rest[x]);
                    assert(healthy[healthy.len() - 1] == o[j]);
                }
            }
        }
    }
}

/// A plan keeps exactly the current replicas that are candidates, and doubles none of them.
pub proof fn kept_are_candidates(current: Seq<Seq<char>>, healthy: Seq<SlotModel>)
    ensures
        plan::kept(current, healthy).len() <= current.len(),
        forall|k: int|
            0 <= k < plan::kept(current, healthy).len() ==> {
                &&& plan::slot_of(healthy, #[trigger] plan::kept(current, healthy)[k]) is Some
                &&& current.contains(plan::kept(current, healthy)[k])
            },
        forall|i: int|
            0 <= i < current.len() && plan::slot_of(healthy, #[trigger] current[i]) is Some
                ==> plan::kept(current, healthy).contains(current[i]),
        current.no_duplicates() ==> plan::kept(current, healthy).no_duplicates(),
    decreases current.len(),
{
    if current.len() > 0 {
        let rest = current.drop_last();
        kept_are_candidates(rest, healthy);
        let k = plan::kept(current, healthy);
        let p = plan::kept(rest, healthy);
        assert forall|i: int| 0 <= i < k.len() implies plan::slot_of(healthy, #[trigger] k[i]) is Some
            && current.contains(k[i]) by {
            if i < p.len() {
                assert(k[i] == p[i]);
                let x = choose|x: int| 0 <= x < rest.len() && rest[x] == p[i];
                assert(current[x] == k[i]);
            } else {
                assert(current[current.len() - 1] == k[i]);
            }
        }
        assert forall|i: int|
            0 <= i < current.len() && plan::slot_of(
                healthy,
                #[trigger] current[i],
            ) is Some implies k.contains(current[i]) by {
            if i < rest.len() {
                assert(rest[i] == current[i]);
                let x = choose|x: int| 0 <= x < p.len() && p[x] == rest[i];
                assert(k[x] == current[i]);
            } else {
                assert(k[p.len() as int] == current[i]);
            }
        }
        if current.no_duplicates() {
            assert forall|i: int, j: int| 0 <= i < k.len() && 0 <= j < k.len() && i != j implies k[i]
                != k[j] by {
                if i == p.len() {
                    assert(rest.contains(p[j]));
                } else if j == p.len() {
                    assert(rest.contains(p[i]));
                }
            }
        }
    }
}

/// How a fill ends up: the chosen nodes stay in front, and the picks come from the candidates.
pub proof fn filled_shape(
    chosen: Seq<Seq<char>>,
    used: Set<Seq<char>>,
    remaining: Seq<SlotModel>,
    rf: int,
)
    requires
        chosen.len() <= rf,
    ensures
        chosen.is_prefix_of(plan::filled(chosen, used, remaining, rf)),
        plan::filled(chosen, used, remaining, rf).len() == if chosen.len() + remaining.len() <= rf {
            (chosen.len() + remaining.len()) as int
        } else {
            rf
        },
        forall|k: int|
            chosen.len() <= k < plan::filled(chosen, used, remaining, rf).len() ==> exists|i: int|
                0 <= i < remaining.len() && (#[trigger] remaining[i]).node_id
                    == #[trigger] plan::filled(chosen, used, remaining, rf)[k],
    decreases remaining.len(),
{
    if chosen.len() < rf && remaining.len() > 0 {
        plan::best_in_range(remaining, used);
        let b = plan::best(remaining, used);
        let c = chosen.push(remaining[b].node_id);
        let u = used.insert(remaining[b].domain);
        let r = remaining.remove(b);
        filled_shape(c, u, r, rf);
        let f = plan::filled(c, u, r, rf);
        assert(f == plan::filled(chosen, used, remaining, rf));
        assert forall|k: int| chosen.len() <= k < f.len() implies exists|i: int|
            0 <= i < remaining.len() && (#[trigger] remaining[i]).node_id == #[trigger] f[k] by {
            if k == chosen.len() {
                assert(f[k] == c[k]);
                assert(remaining[b].node_id == f[k]);
            } else {
                let i = choose|i: int| 0 <= i < r.len() && (#[trigger] r[i]).node_id == f[k];
                let x = if i < b { i } else { i + 1 };
                assert(remaining[x] == r[i]);
            }
        }
        assert(chosen.is_prefix_of(c));
    }
}

/// A plan holds as many replicas as the replication factor asks for, or all candidates there are.
pub proof fn plan_size(current: Seq<Seq<char>>, healthy: Seq<SlotModel>, rf: int)
    requires
        rf >= 0,
    ensures
        ({
            let k = plan::kept(current, healthy);
            let n = k.len() + plan::others(healthy, k).len();
            plan::planned(current, healthy, rf).len() == if n <= rf {
                n as int
            } else {
                rf
            }
        }),
{
    let k = plan::kept(current, healthy);
    if k.len() > rf {
        by_load_permutes(k, healthy);
    } else {
        filled_shape(k, plan::domains(k, healthy), plan::others(healthy, k), rf);
    }
}

/// A plan keeps every current replica that is still a candidate, in order and in front, as long
/// as the replication factor has room for them: no needless data movement.
pub proof fn plan_keeps_healthy_replicas(
    current: Seq<Seq<char>>,
    healthy: Seq<SlotModel>,
    rf: int,
)
    requires
        plan::kept(current, healthy).len() <= rf,
    ensures
        plan::kept(current, healthy).is_prefix_of(plan::planned(current, healthy, rf)),
{
    let k = plan::kept(current, healthy);
    filled_shape(k, plan::domains(k, healthy), plan::others(healthy, k), rf);
}

proof fn by_load_permutes(chosen: Seq<Seq<char>>, healthy: Seq<SlotModel>)
    ensures
        plan::by_load(chosen, healthy).len() == chosen.len(),
        plan::by_load(chosen, healthy).to_multiset() == chosen.to_multiset(),
    decreases chosen.len(),
{
    broadcast use vstd::seq_lib::group_to_multiset_ensures;

    if chosen.len() > 0 {
        let rest = chosen.drop_last();
        by_load_permutes(rest, healthy);
        let sorted = plan::by_load(rest, healthy);
        place_range(sorted, chosen.last(), healthy);
        let at = plan::place_by_load(sorted, chosen.last(), healthy);
        vstd::seq_lib::to_multiset_insert(sorted, at, chosen.last());
        assert(rest.push(chosen.last()) =~= chosen);
    } else {
        assert(plan::by_load(chosen, healthy) =~= chosen);
    }
}

proof fn place_range(sorted: Seq<Seq<char>>, id: Seq<char>, healthy: Seq<SlotModel>)
    ensures
        0 <= plan::place_by_load(sorted, id, healthy) <= sorted.len(),
    decreases sorted.len(),
{
    if sorted.len() > 0 {
        place_range(sorted.drop_last(), id, healthy);
    }
}

/// A plan only names candidates: a dead or draining node is never planned.
pub proof fn plan_names_candidates(
    current: Seq<Seq<char>>,
    healthy: Seq<SlotModel>,
    rf: int,
    k: int,
)
    requires
        rf >= 0,
        0 <= k < plan::planned(current, healthy, rf).len(),
    ensures
        plan::slot_of(healthy, plan::planned(current, healthy, rf)[k]) is Some,
{
    broadcast use vstd::seq_lib::group_to_multiset_ensures;

    let kept = plan::kept(current, healthy);
    let p = plan::planned(current, healthy, rf);
    kept_are_candidates(current, healthy);
    if kept.len() > rf {
        by_load_permutes(kept, healthy);
        let sorted = plan::by_load(kept, healthy);
        assert(sorted.contains(sorted[k]));
        assert(sorted.to_multiset().count(sorted[k]) > 0);
        assert(kept.contains(sorted[k]));
    } else {
        let o = plan::others(healthy, kept);
        filled_shape(kept, plan::domains(kept, healthy), o, rf);
        if k < kept.len() {
            assert(p[k] == kept[k]);
        } else {
            others_are_candidates(healthy, kept);
            let i = choose|i: int| 0 <= i < o.len() && (#[trigger] o[i]).node_id == p[k];
            let x = choose|x: int| 0 <= x < healthy.len() && healthy[x] == o[i];
            assert(healthy[x].node_id == p[k]);
            slot_of_is_listed(healthy, p[k]);
        }
    }
}

proof fn filled_distinct(
    chosen: Seq<Seq<char>>,
    used: Set<Seq<char>>,
    remaining: Seq<SlotModel>,
    rf: int,
)
    requires
        chosen.len() <= rf,
        chosen.no_duplicates(),
        listed_once(remaining),
        forall|i: int|
            0 <= i < remaining.len() ==> !chosen.contains((#[trigger] remaining[i]).node_id),
    ensures
        plan::filled(chosen, used, remaining, rf).no_duplicates(),
    decreases remaining.len(),
{
    if chosen.len() < rf && remaining.len() > 0 {
        plan::best_in_range(remaining, used);
        let b = plan::best(remaining, used);
        let c = chosen.push(remaining[b].node_id);
        let r = remaining.remove(b);
        assert(!chosen.contains(remaining[b].node_id));
        assert forall|i: int, j: int| 0 <= i < c.len() && 0 <= j < c.len() && i != j implies c[i]
            != c[j] by {
            if i == chosen.len() {
                assert(chosen.contains(c[j]));
            } else if j == chosen.len() {
                assert(chosen.contains(c[i]));
            }
        }
        assert forall|i: int| 0 <= i < r.len() implies !c.contains((#[trigger] r[i]).node_id) by {
            let x = if i < b { i } else { i + 1 };
            assert(r[i] == remaining[x]);
            if c.contains(r[i].node_id) {
                let y = choose|y: int| 0 <= y < c.len() && c[y] == r[i].node_id;
                if y < chosen.len() {
                    assert(chosen[y] == r[i].node_id);
                } else {
                    assert(remaining[x].node_id == remaining[b].node_id);
                }
            }
        }
        assert(listed_once(r)) by {
            assert forall|i: int, j: int| 0 <= i < j < r.len() implies (#[trigger] r[i]).node_id != (
            #[trigger] r[j]).node_id by {
                let x = if i < b { i } else { i + 1 };
                let y = if j < b { j } else { j + 1 };
                assert(r[i] == remaining[x] && r[j] == remaining[y]);
            }
        }
        filled_distinct(c, used.insert(remaining[b].domain), r, rf);
    }
}

/// A plan never names a node twice, if the current replicas do not and every candidate is listed
/// once.
pub proof fn plan_names_nodes_once(current: Seq<Seq<char>>, healthy: Seq<SlotModel>, rf: int)
    requires
        rf >= 0,
        current.no_duplicates(),
        listed_once(healthy),
    ensures
        plan::planned(current, healthy, rf).no_duplicates(),
{
    broadcast use vstd::seq_lib::group_to_multiset_ensures;

    let kept = plan::kept(current, healthy);
    kept_are_candidates(current, healthy);
    if kept.len() > rf {
        by_load_permutes(kept, healthy);
        let sorted = plan::by_load(kept, healthy);
        kept.lemma_multiset_has_no_duplicates();
        sorted.lemma_multiset_has_no_duplicates_conv();
    } else {
        others_are_candidates(healthy, kept);
        filled_distinct(kept, plan::domains(kept, healthy), plan::others(healthy, kept), rf);
    }
}

proof fn filled_exhausts(
    chosen: Seq<Seq<char>>,
    used: Set<Seq<char>>,
    remaining: Seq<SlotModel>,
    rf: int,
    j: int,
)
    requires
        chosen.len() + remaining.len() <= rf,
        0 <= j < remaining.len(),
    ensures
        plan::filled(chosen, used, remaining, rf).contains(remaining[j].node_id),
    decreases remaining.len(),
{
    plan::best_in_range(remaining, used);
    let b = plan::best(remaining, used);
    let c = chosen.push(remaining[b].node_id);
    let u = used.insert(remaining[b].domain);
    let r = remaining.remove(b);
    if j == b {
        filled_shape(c, u, r, rf);
        let f = plan::filled(c, u, r, rf);
        assert(f[chosen.len() as int] == c[chosen.len() as int]);
    } else {
        let x = if j < b { j } else { j - 1 };
        assert(r[x] == remaining[j]);
        filled_exhausts(c, u, r, rf, x);
    }
}

/// Where every replica is a candidate, a plan keeps them all as they are.
pub proof fn kept_all(p: Seq<Seq<char>>, healthy: Seq<SlotModel>)
    requires
        forall|k: int| 0 <= k < p.len() ==> plan::slot_of(healthy, #[trigger] p[k]) is Some,
    ensures
        plan::kept(p, healthy) == p,
    decreases p.len(),
{
    if p.len() > 0 {
        let rest = p.drop_last();
        assert forall|k: int| 0 <= k < rest.len() implies plan::slot_of(
            healthy,
            #[trigger] rest[k],
        ) is Some by {
            assert(rest[k] == p[k]);
        }
        kept_all(rest, healthy);
        assert(plan::slot_of(healthy, p[p.len() - 1]) is Some);
        assert(rest.push(p.last()) =~= p);
    } else {
        assert(plan::kept(p, healthy) =~= p);
    }
}

/// Planning again from a plan changes nothing: a plan does not churn.
pub proof fn plan_is_a_fixed_point(current: Seq<Seq<char>>, healthy: Seq<SlotModel>, rf: int)
    requires
        rf >= 0,
    ensures
        plan::planned(plan::planned(current, healthy, rf), healthy, rf) == plan::planned(
            current,
            healthy,
            rf,
        ),
{
    let p = plan::planned(current, healthy, rf);
    let kept = plan::kept(current, healthy);
    let o = plan::others(healthy, kept);
    assert forall|k: int| 0 <= k < p.len() implies plan::slot_of(healthy, #[trigger] p[k]) is Some by {
        plan_names_candidates(current, healthy, rf, k);
    }
    kept_all(p, healthy);
    plan_size(current, healthy, rf);
    if p.len() < rf {
        let rest = plan::others(healthy, p);
        others_are_candidates(healthy, p);
        others_are_candidates(healthy, kept);
        if rest.len() > 0 {
            let s = rest[0];
            let x = choose|x: int| 0 <= x < healthy.len() && healthy[x] == s;
            assert(!p.contains(s.node_id));
            if kept.contains(healthy[x].node_id) {
                plan_keeps_healthy_replicas(current, healthy, rf);
                let y = choose|y: int| 0 <= y < kept.len() && kept[y] == s.node_id;
                assert(p[y] == s.node_id);
            } else {
                assert(o.contains(healthy[x]));
                let y = choose|y: int| 0 <= y < o.len() && o[y] == s;
                filled_exhausts(kept, plan::domains(kept, healthy), o, rf, y);
            }
        }
    }
}

/// Whether two lists name the same candidates, each once.
spec fn same_candidates(h: Seq<SlotModel>, g: Seq<SlotModel>) -> bool {
    &&& listed_once(h)
    &&& listed_once(g)
    &&& forall|s: SlotModel| #[trigger] h.contains(s) <==> g.contains(s)
}

proof fn reordering_lists_once(h: Seq<SlotModel>, g: Seq<SlotModel>)
    requires
        listed_once(h),
        h.to_multiset() == g.to_multiset(),
    ensures
        same_candidates(h, g),
{
    broadcast use vstd::seq_lib::group_to_multiset_ensures;

    assert(h.no_duplicates()) by {
        assert forall|i: int, j: int| 0 <= i < h.len() && 0 <= j < h.len() && i != j implies h[i]
            != h[j] by {
            if i < j {
                assert(h[i].node_id != h[j].node_id);
            } else {
                assert(h[j].node_id != h[i].node_id);
            }
        }
    }
    h.lemma_multiset_has_no_duplicates();
    assert forall|s: SlotModel| #[trigger] h.contains(s) <==> g.contains(s) by {
        assert(h.contains(s) <==> h.to_multiset().count(s) > 0);
        assert(g.contains(s) <==> g.to_multiset().count(s) > 0);
    }
    g.lemma_multiset_has_no_duplicates_conv();
    assert forall|i: int, j: int| 0 <= i < j < g.len() implies (#[trigger] g[i]).node_id != (
    #[trigger] g[j]).node_id by {
        assert(g.contains(g[i]) && g.contains(g[j]));
        let x = choose|x: int| 0 <= x < h.len() && h[x] == g[i];
        let y = choose|y: int| 0 <= y < h.len() && h[y] == g[j];
        assert(h.contains(g[i]) && h.contains(g[j]));
        if x < y {
            assert(h[x].node_id != h[y].node_id);
        } else if y < x {
            assert(h[y].node_id != h[x].node_id);
        }
    }
}

proof fn same_slot(h: Seq<SlotModel>, g: Seq<SlotModel>, id: Seq<char>)
    requires
        same_candidates(h, g),
    ensures
        plan::slot_of(h, id) == plan::slot_of(g, id),
{
    slot_of_is_listed(h, id);
    slot_of_is_listed(g, id);
    if plan::slot_of(h, id) is Some {
        let i = choose|i: int| 0 <= i < h.len() && (#[trigger] h[i]).node_id == id;
        slot_of_listed_once(h, i);
        assert(h.contains(h[i]));
        let j = choose|j: int| 0 <= j < g.len() && g[j] == h[i];
        slot_of_listed_once(g, j);
    } else if plan::slot_of(g, id) is Some {
        let j = choose|j: int| 0 <= j < g.len() && (#[trigger] g[j]).node_id == id;
        assert(g.contains(g[j]));
        assert(h.contains(g[j]));
        let i = choose|i: int| 0 <= i < h.len() && h[i] == g[j];
        assert(h[i].node_id == id);
    }
}

proof fn same_kept(h: Seq<SlotModel>, g: Seq<SlotModel>, ids: Seq<Seq<char>>)
    requires
        same_candidates(h, g),
    ensures
        plan::kept(ids, h) == plan::kept(ids, g),
        plan::domains(ids, h) == plan::domains(ids, g),
        plan::by_load(ids, h) == plan::by_load(ids, g),
    decreases ids.len(),
{
    if ids.len() > 0 {
        same_kept(h, g, ids.drop_last());
        same_slot(h, g, ids.last());
        same_place(h, g, plan::by_load(ids.drop_last(), h), ids.last());
    }
}

proof fn same_place(h: Seq<SlotModel>, g: Seq<SlotModel>, sorted: Seq<Seq<char>>, id: Seq<char>)
    requires
        same_candidates(h, g),
    ensures
        plan::place_by_load(sorted, id, h) == plan::place_by_load(sorted, id, g),
    decreases sorted.len(),
{
    same_slot(h, g, id);
    if sorted.len() > 0 {
        same_slot(h, g, sorted.last());
        same_place(h, g, sorted.drop_last(), id);
    }
}

proof fn same_others(h: Seq<SlotModel>, g: Seq<SlotModel>, chosen: Seq<Seq<char>>)
    requires
        same_candidates(h, g),
    ensures
        same_candidates(plan::others(h, chosen), plan::others(g, chosen)),
{
    let o = plan::others(h, chosen);
    let p = plan::others(g, chosen);
    others_are_candidates(h, chosen);
    others_are_candidates(g, chosen);
    assert forall|s: SlotModel| #[trigger] o.contains(s) <==> p.contains(s) by {
        if o.contains(s) {
            let k = choose|k: int| 0 <= k < o.len() && o[k] == s;
            assert(h.contains(o[k]));
            let j = choose|j: int| 0 <= j < g.len() && g[j] == s;
            assert(p.contains(g[j]));
        }
        if p.contains(s) {
            let k = choose|k: int| 0 <= k < p.len() && p[k] == s;
            assert(g.contains(p[k]));
            assert(h.contains(s));
            let j = choose|j: int| 0 <= j < h.len() && h[j] == s;
            assert(o.contains(h[j]));
        }
    }
}

proof fn same_pick(h: Seq<SlotModel>, g: Seq<SlotModel>, used: Set<Seq<char>>)
    requires
        same_candidates(h, g),
        h.len() > 0,
    ensures
        g.len() > 0,
        h[plan::best(h, used)] == g[plan::best(g, used)],
{
    assert(h.contains(h[0]));
    assert(g.contains(h[0]));
    plan::best_in_range(h, used);
    plan::best_in_range(g, used);
    let a = h[plan::best(h, used)];
    let b = g[plan::best(g, used)];
    assert(h.contains(a));
    assert(g.contains(b));
    assert(h.contains(b) && g.contains(a));
    let i = choose|i: int| 0 <= i < h.len() && h[i] == b;
    let j = choose|j: int| 0 <= j < g.len() && g[j] == a;
    pick_is_best(h, used, i);
    pick_is_best(g, used, j);
    text::text_lt_total(a.node_id, b.node_id);
    slot_of_listed_once(h, i);
    slot_of_listed_once(h, plan::best(h, used));
}

/// Taking one candidate out leaves the others.
pub proof fn without_one(h: Seq<SlotModel>, i: int)
    requires
        listed_once(h),
        0 <= i < h.len(),
    ensures
        listed_once(h.remove(i)),
        forall|s: SlotModel| #[trigger] h.remove(i).contains(s) <==> h.contains(s) && s != h[i],
{
    let r = h.remove(i);
    assert forall|j: int, k: int| 0 <= j < k < r.len() implies (#[trigger] r[j]).node_id != (
    #[trigger] r[k]).node_id by {
        let x = if j < i { j } else { j + 1 };
        let y = if k < i { k } else { k + 1 };
        assert(r[j] == h[x] && r[k] == h[y]);
    }
    assert forall|s: SlotModel| #[trigger] r.contains(s) <==> h.contains(s) && s != h[i] by {
        if r.contains(s) {
            let j = choose|j: int| 0 <= j < r.len() && r[j] == s;
            let x = if j < i { j } else { j + 1 };
            assert(h[x] == s);
            if x < i {
                assert(h[x].node_id != h[i].node_id);
            } else {
                assert(h[i].node_id != h[x].node_id);
            }
        }
        if h.contains(s) && s != h[i] {
            let x = choose|x: int| 0 <= x < h.len() && h[x] == s;
            assert(r[if x < i { x } else { x - 1 }] == s);
        }
    }
}

proof fn same_fill(
    chosen: Seq<Seq<char>>,
    used: Set<Seq<char>>,
    h: Seq<SlotModel>,
    g: Seq<SlotModel>,
    rf: int,
)
    requires
        same_candidates(h, g),
    ensures
        plan::filled(chosen, used, h, rf) == plan::filled(chosen, used, g, rf),
    decreases h.len(),
{
    if h.len() == 0 {
        if g.len() > 0 {
            assert(g.contains(g[0]));
            assert(h.contains(g[0]));
        }
    } else {
        same_pick(h, g, used);
        plan::best_in_range(h, used);
        plan::best_in_range(g, used);
        let i = plan::best(h, used);
        let j = plan::best(g, used);
        without_one(h, i);
        without_one(g, j);
        assert(same_candidates(h.remove(i), g.remove(j))) by {
            assert forall|s: SlotModel| #[trigger] h.remove(i).contains(s) <==> g.remove(j).contains(
                s,
            ) by {
                assert(h.contains(s) <==> g.contains(s));
            }
        }
        same_fill(
            chosen.push(h[i].node_id),
            used.insert(h[i].domain),
            h.remove(i),
            g.remove(j),
            rf,
        );
    }
}

/// A plan does not depend on the order in which the candidates are listed.
pub proof fn plan_ignores_candidate_order(
    current: Seq<Seq<char>>,
    h: Seq<SlotModel>,
    g: Seq<SlotModel>,
    rf: int,
)
    requires
        listed_once(h),
        h.to_multiset() == g.to_multiset(),
    ensures
        plan::planned(current, h, rf) == plan::planned(current, g, rf),
{
    reordering_lists_once(h, g);
    same_kept(h, g, current);
    let kept = plan::kept(current, h);
    same_kept(h, g, kept);
    same_others(h, g, kept);
    same_fill(
        kept,
        plan::domains(kept, h),
        plan::others(h, kept),
        plan::others(g, kept),
        rf,
    );
}

/// The failure domains the candidates offer.
pub open spec fn offered_domains(healthy: Seq<SlotModel>) -> Set<Seq<char>> {
    healthy.map_values(|s: SlotModel| s.domain).to_set()
}

proof fn offered_domains_contains(healthy: Seq<SlotModel>, d: Seq<char>)
    requires
        offered_domains(healthy).contains(d),
    ensures
        exists|i: int| 0 <= i < healthy.len() && (#[trigger] healthy[i]).domain == d,
{
    let m = healthy.map_values(|s: SlotModel| s.domain);
    let i = choose|i: int| 0 <= i < m.len() && m[i] == d;
    assert(healthy[i].domain == d);
}

proof fn offers(healthy: Seq<SlotModel>, i: int)
    requires
        0 <= i < healthy.len(),
    ensures
        offered_domains(healthy).contains(healthy[i].domain),
{
    let m = healthy.map_values(|s: SlotModel| s.domain);
    assert(m[i] == healthy[i].domain);
}

/// The lower of two numbers.
pub open spec fn lower(a: int, b: int) -> int {
    if a <= b {
        a
    } else {
        b
    }
}

proof fn filled_spreads(
    healthy: Seq<SlotModel>,
    chosen: Seq<Seq<char>>,
    used: Set<Seq<char>>,
    remaining: Seq<SlotModel>,
    rf: int,
)
    requires
        used == plan::domains(chosen, healthy),
        used.finite(),
        used.subset_of(offered_domains(healthy)),
        chosen.len() <= rf,
        forall|i: int|
            0 <= i < remaining.len() ==> plan::slot_of(healthy, (#[trigger] remaining[i]).node_id)
                == Some(remaining[i]) && offered_domains(healthy).contains(remaining[i].domain),
        forall|d: Seq<char>|
            offered_domains(healthy).contains(d) ==> used.contains(d) || exists|i: int|
                0 <= i < remaining.len() && (#[trigger] remaining[i]).domain == d,
    ensures
        ({
            let f = plan::filled(chosen, used, remaining, rf);
            &&& plan::domains(f, healthy).len() == lower(
                used.len() + f.len() - chosen.len(),
                offered_domains(healthy).len() as int,
            )
            &&& f.len() < rf ==> plan::domains(f, healthy).len() == offered_domains(healthy).len()
        }),
    decreases remaining.len(),
{
    let all = offered_domains(healthy);
    vstd::set_lib::lemma_len_subset(used, all);
    if chosen.len() < rf && remaining.len() > 0 {
        plan::best_in_range(remaining, used);
        let b = plan::best(remaining, used);
        let c = chosen.push(remaining[b].node_id);
        let u = used.insert(remaining[b].domain);
        let r = remaining.remove(b);
        if exists|d: Seq<char>| all.contains(d) && !used.contains(d) {
            let d = choose|d: Seq<char>| all.contains(d) && !used.contains(d);
            let j = choose|j: int| 0 <= j < remaining.len() && (#[trigger] remaining[j]).domain == d;
            assert(remaining[j].domain == d);
            pick_prefers_fresh_domain(remaining, used, j);
        } else {
            assert(used =~= all);
            assert(u =~= all);
        }
        assert(c.drop_last() =~= chosen);
        assert forall|i: int| 0 <= i < r.len() implies plan::slot_of(
            healthy,
            (#[trigger] r[i]).node_id,
        ) == Some(r[i]) && all.contains(r[i].domain) by {
            assert(r[i] == remaining[if i < b { i } else { i + 1 }]);
        }
        assert forall|e: Seq<char>| all.contains(e) implies u.contains(e) || exists|i: int|
            0 <= i < r.len() && (#[trigger] r[i]).domain == e by {
            if !u.contains(e) {
                let i = choose|i: int| 0 <= i < remaining.len() && (#[trigger] remaining[i]).domain == e;
                assert(i != b);
                assert(r[if i < b { i } else { i - 1 }] == remaining[i]);
            }
        }
        filled_spreads(healthy, c, u, r, rf);
        filled_shape(c, u, r, rf);
        vstd::set_lib::lemma_len_subset(u, all);
    } else if chosen.len() < rf {
        assert(used =~= all);
    }
}

/// The failure domains of some nodes are those of the candidates among them.
pub proof fn domains_of_candidates(chosen: Seq<Seq<char>>, healthy: Seq<SlotModel>)
    ensures
        plan::domains(chosen, healthy).finite(),
        forall|k: int|
            0 <= k < chosen.len() ==> (plan::slot_of(healthy, #[trigger] chosen[k]) matches Some(s)
                ==> plan::domains(chosen, healthy).contains(s.domain)),
        forall|d: Seq<char>| #[trigger]
            plan::domains(chosen, healthy).contains(d) ==> exists|k: int|
                0 <= k < chosen.len() && (plan::slot_of(healthy, #[trigger] chosen[k]) matches Some(
                    s,
                ) && s.domain == d),
    decreases chosen.len(),
{
    if chosen.len() > 0 {
        let rest = chosen.drop_last();
        domains_of_candidates(rest, healthy);
        assert forall|k: int| 0 <= k < chosen.len() implies (plan::slot_of(
            healthy,
            #[trigger] chosen[k],
        ) matches Some(s) ==> plan::domains(chosen, healthy).contains(s.domain)) by {
            if k < chosen.len() - 1 {
                assert(rest[k] == chosen[k]);
            }
        }
        assert forall|d: Seq<char>| #[trigger]
            plan::domains(chosen, healthy).contains(d) implies exists|k: int|
            0 <= k < chosen.len() && (plan::slot_of(healthy, #[trigger] chosen[k]) matches Some(s)
                && s.domain == d) by {
            if plan::domains(rest, healthy).contains(d) {
                let k = choose|k: int|
                    0 <= k < rest.len() && (plan::slot_of(healthy, #[trigger] rest[k]) matches Some(
                        s,
                    ) && s.domain == d);
                assert(chosen[k] == rest[k]);
            } else {
                assert(plan::slot_of(healthy, chosen[chosen.len() - 1]) matches Some(s) && s.domain
                    == d);
            }
        }
    }
}

proof fn domains_are_offered(chosen: Seq<Seq<char>>, healthy: Seq<SlotModel>)
    ensures
        plan::domains(chosen, healthy).subset_of(offered_domains(healthy)),
{
    domains_of_candidates(chosen, healthy);
    assert forall|d: Seq<char>| plan::domains(
        chosen,
        healthy,
    ).contains(d) implies offered_domains(healthy).contains(d) by {
        let k = choose|k: int|
            0 <= k < chosen.len() && (plan::slot_of(healthy, #[trigger] chosen[k]) matches Some(s)
                && s.domain == d);
        found_slot_is_listed(healthy, chosen[k]);
        let i = choose|i: int|
            0 <= i < healthy.len() && plan::slot_of(healthy, chosen[k]) == Some(
                #[trigger] healthy[i],
            );
        offers(healthy, i);
    }
}

proof fn found_slot_is_listed(healthy: Seq<SlotModel>, id: Seq<char>)
    ensures
        plan::slot_of(healthy, id) is Some ==> exists|i: int|
            0 <= i < healthy.len() && plan::slot_of(healthy, id) == Some(#[trigger] healthy[i]),
    decreases healthy.len(),
{
    if healthy.len() > 0 {
        let rest = healthy.drop_last();
        found_slot_is_listed(rest, id);
        if plan::slot_of(rest, id) is Some {
            let i = choose|i: int|
                0 <= i < rest.len() && plan::slot_of(rest, id) == Some(#[trigger] rest[i]);
            assert(healthy[i] == rest[i]);
        } else if plan::slot_of(healthy, id) is Some {
            assert(plan::slot_of(healthy, id) == Some(healthy[healthy.len() - 1]));
        }
    }
}

/// How far a plan spreads the replicas: each replica that is added stands in a failure domain of
/// its own, until every domain the candidates offer has one. A plan that runs out of candidates
/// uses every domain.
pub proof fn plan_spreads_domains(current: Seq<Seq<char>>, healthy: Seq<SlotModel>, rf: int)
    requires
        listed_once(healthy),
        plan::kept(current, healthy).len() <= rf,
    ensures
        ({
            let kept = plan::kept(current, healthy);
            let planned = plan::planned(current, healthy, rf);
            &&& plan::domains(planned, healthy).len() == lower(
                plan::domains(kept, healthy).len() + planned.len() - kept.len(),
                offered_domains(healthy).len() as int,
            )
            &&& planned.len() < rf ==> plan::domains(planned, healthy).len() == offered_domains(
                healthy,
            ).len()
        }),
{
    let kept = plan::kept(current, healthy);
    let used = plan::domains(kept, healthy);
    let o = plan::others(healthy, kept);
    domains_of_candidates(kept, healthy);
    domains_are_offered(kept, healthy);
    others_are_candidates(healthy, kept);
    assert forall|i: int| 0 <= i < o.len() implies plan::slot_of(
        healthy,
        (#[trigger] o[i]).node_id,
    ) == Some(o[i]) && offered_domains(healthy).contains(o[i].domain) by {
        let x = choose|x: int| 0 <= x < healthy.len() && healthy[x] == o[i];
        slot_of_listed_once(healthy, x);
        offers(healthy, x);
    }
    assert forall|d: Seq<char>| offered_domains(healthy).contains(d) implies used.contains(d)
        || exists|i: int| 0 <= i < o.len() && (#[trigger] o[i]).domain == d by {
        offered_domains_contains(healthy, d);
        let x = choose|x: int| 0 <= x < healthy.len() && (#[trigger] healthy[x]).domain == d;
        slot_of_listed_once(healthy, x);
        if kept.contains(healthy[x].node_id) {
            let k = choose|k: int| 0 <= k < kept.len() && kept[k] == healthy[x].node_id;
            assert(plan::slot_of(healthy, kept[k]) == Some(healthy[x]));
        } else {
            let k = choose|k: int| 0 <= k < o.len() && o[k] == healthy[x];
            assert(o[k].domain == d);
        }
    }
    filled_spreads(healthy, kept, used, o, rf);
}

/// A shard's replicas stand in pairwise distinct failure domains whenever the candidates offer
/// enough of them and the replicas that stay do so already: losing one domain loses one replica.
pub proof fn plan_keeps_domains_distinct(current: Seq<Seq<char>>, healthy: Seq<SlotModel>, rf: int)
    requires
        listed_once(healthy),
        rf <= offered_domains(healthy).len(),
        plan::kept(current, healthy).len() <= rf,
        plan::domains(plan::kept(current, healthy), healthy).len() == plan::kept(
            current,
            healthy,
        ).len(),
    ensures
        plan::planned(current, healthy, rf).len() == rf,
        plan::domains(plan::planned(current, healthy, rf), healthy).len() == rf,
{
    plan_spreads_domains(current, healthy, rf);
    plan_size(current, healthy, rf);
}

proof fn place_splits(sorted: Seq<Seq<char>>, id: Seq<char>, healthy: Seq<SlotModel>)
    requires
        forall|i: int, j: int|
            0 <= i <= j < sorted.len() ==> plan::load_of(healthy, #[trigger] sorted[i])
                <= plan::load_of(healthy, #[trigger] sorted[j]),
    ensures
        ({
            let at = plan::place_by_load(sorted, id, healthy);
            &&& 0 <= at <= sorted.len()
            &&& forall|i: int|
                0 <= i < at ==> plan::load_of(healthy, #[trigger] sorted[i]) <= plan::load_of(
                    healthy,
                    id,
                )
            &&& forall|i: int|
                at <= i < sorted.len() ==> plan::load_of(healthy, id) <= plan::load_of(
                    healthy,
                    #[trigger] sorted[i],
                )
        }),
    decreases sorted.len(),
{
    if sorted.len() > 0 && plan::load_of(healthy, sorted.last()) > plan::load_of(healthy, id) {
        let rest = sorted.drop_last();
        assert forall|i: int, j: int| 0 <= i <= j < rest.len() implies plan::load_of(
            healthy,
            #[trigger] rest[i],
        ) <= plan::load_of(healthy, #[trigger] rest[j]) by {
            assert(rest[i] == sorted[i] && rest[j] == sorted[j]);
        }
        place_splits(rest, id, healthy);
        let at = plan::place_by_load(rest, id, healthy);
        assert forall|i: int| 0 <= i < at implies plan::load_of(healthy, #[trigger] sorted[i])
            <= plan::load_of(healthy, id) by {
            assert(rest[i] == sorted[i]);
        }
        assert forall|i: int| at <= i < sorted.len() implies plan::load_of(healthy, id)
            <= plan::load_of(healthy, #[trigger] sorted[i]) by {
            if i < rest.len() {
                assert(rest[i] == sorted[i]);
            }
        }
    }
}

/// Sorted by load, the loads ascend.
pub proof fn by_load_ascends(chosen: Seq<Seq<char>>, healthy: Seq<SlotModel>)
    ensures
        forall|i: int, j: int|
            0 <= i <= j < plan::by_load(chosen, healthy).len() ==> plan::load_of(
                healthy,
                #[trigger] plan::by_load(chosen, healthy)[i],
            ) <= plan::load_of(healthy, #[trigger] plan::by_load(chosen, healthy)[j]),
    decreases chosen.len(),
{
    if chosen.len() > 0 {
        let rest = chosen.drop_last();
        by_load_ascends(rest, healthy);
        let sorted = plan::by_load(rest, healthy);
        let id = chosen.last();
        place_splits(sorted, id, healthy);
        let at = plan::place_by_load(sorted, id, healthy);
        let now = plan::by_load(chosen, healthy);
        assert forall|i: int, j: int| 0 <= i <= j < now.len() implies plan::load_of(
            healthy,
            #[trigger] now[i],
        ) <= plan::load_of(healthy, #[trigger] now[j]) by {
            if i != at {
                assert(now[i] == sorted[if i < at { i } else { i - 1 }]);
            }
            if j != at {
                assert(now[j] == sorted[if j < at { j } else { j - 1 }]);
            }
        }
    }
}

/// When more healthy replicas are left than the replication factor asks for, no replica that
/// stays is more loaded than one that goes.
pub proof fn shrinking_drops_the_most_loaded(
    current: Seq<Seq<char>>,
    healthy: Seq<SlotModel>,
    rf: int,
    stays: int,
    goes: int,
)
    requires
        0 <= stays < rf <= goes < plan::kept(current, healthy).len(),
    ensures
        plan::planned(current, healthy, rf)[stays] == plan::by_load(
            plan::kept(current, healthy),
            healthy,
        )[stays],
        plan::load_of(healthy, plan::planned(current, healthy, rf)[stays]) <= plan::load_of(
            healthy,
            plan::by_load(plan::kept(current, healthy), healthy)[goes],
        ),
{
    let k = plan::kept(current, healthy);
    by_load_permutes(k, healthy);
    by_load_ascends(k, healthy);
    assert(plan::by_load(k, healthy)[stays] == plan::planned(current, healthy, rf)[stays]);
}

} // verus!
