//! Leader affinity: which node should lead a shard right now.
//!
//! Each shard has a preferred leader, chosen for physical proximity. Normally it leads. If it
//! fails, a healthy follower takes over. When it comes back healthy, leadership transfers back.

use crate::ids::IdSet;
use crate::model::{NodeId, PlacementPolicy, PolicyModel};
use crate::text;
use crate::text::{text_before, text_eq, texts_contain};
use vstd::prelude::*;

verus! {

/// A candidate replica that can lead a shard.
#[derive(Debug)]
pub struct LeaderSlot {
    pub node_id: NodeId,
    pub cloud_provider: String,
    pub region: String,
    pub leader_load: u32,
}

/// The value of a [`LeaderSlot`].
#[verifier::ext_equal]
pub struct LeaderModel {
    pub node_id: Seq<char>,
    pub cloud_provider: Seq<char>,
    pub region: Seq<char>,
    pub leader_load: u32,
}

impl DeepView for LeaderSlot {
    type V = LeaderModel;

    open spec fn deep_view(&self) -> LeaderModel {
        LeaderModel {
            node_id: self.node_id@,
            cloud_provider: self.cloud_provider@,
            region: self.region@,
            leader_load: self.leader_load,
        }
    }
}

/// Whether a wish is expressed and met, ASCII case aside.
pub open spec fn wish_met(wish: Option<Seq<char>>, actual: Seq<char>) -> bool {
    wish is Some && text::lowered(wish->0) == text::lowered(actual)
}

/// The region a policy asks for.
pub open spec fn region_wish(policy: Option<PolicyModel>) -> Option<Seq<char>> {
    match policy {
        Some(p) => p.home_region,
        None => None,
    }
}

/// The cloud a policy asks for.
pub open spec fn cloud_wish(policy: Option<PolicyModel>) -> Option<Seq<char>> {
    match policy {
        Some(p) => p.preferred_cloud_provider,
        None => None,
    }
}

/// Whether `a` makes a better leader than `b`: its region is asked for, then its cloud is, then it
/// leads fewer shards, then it leads this one already, then its id is lower.
pub open spec fn better_leader(
    a: LeaderModel,
    b: LeaderModel,
    policy: Option<PolicyModel>,
    current: Option<Seq<char>>,
) -> bool {
    let a_region = wish_met(region_wish(policy), a.region);
    let b_region = wish_met(region_wish(policy), b.region);
    let a_cloud = wish_met(cloud_wish(policy), a.cloud_provider);
    let b_cloud = wish_met(cloud_wish(policy), b.cloud_provider);
    let a_current = current == Some(a.node_id);
    let b_current = current == Some(b.node_id);
    if a_region != b_region {
        a_region
    } else if a_cloud != b_cloud {
        a_cloud
    } else if a.leader_load != b.leader_load {
        a.leader_load < b.leader_load
    } else if a_current != b_current {
        a_current
    } else {
        text::text_lt(a.node_id, b.node_id)
    }
}

/// Whether a node can lead: it holds a replica and is healthy.
pub open spec fn can_lead(
    id: Seq<char>,
    replicas: Seq<Seq<char>>,
    healthy: Set<Seq<char>>,
) -> bool {
    healthy.contains(id) && replicas.contains(id)
}

/// The best leader among the slots that can lead.
pub open spec fn best_leader(
    slots: Seq<LeaderModel>,
    replicas: Seq<Seq<char>>,
    healthy: Set<Seq<char>>,
    policy: Option<PolicyModel>,
    current: Option<Seq<char>>,
) -> Option<LeaderModel>
    decreases slots.len(),
{
    if slots.len() == 0 {
        None
    } else {
        let before = best_leader(slots.drop_last(), replicas, healthy, policy, current);
        let last = slots.last();
        if !can_lead(last.node_id, replicas, healthy) {
            before
        } else {
            match before {
                None => Some(last),
                Some(b) => if better_leader(last, b, policy, current) {
                    Some(last)
                } else {
                    Some(b)
                },
            }
        }
    }
}

/// The id of the best leader, if any slot can lead.
pub open spec fn best_leader_id(
    slots: Seq<LeaderModel>,
    replicas: Seq<Seq<char>>,
    healthy: Set<Seq<char>>,
    policy: Option<PolicyModel>,
    current: Option<Seq<char>>,
) -> Option<Seq<char>> {
    match best_leader(slots, replicas, healthy, policy, current) {
        Some(s) => Some(s.node_id),
        None => None,
    }
}

/// The first replica that is healthy.
pub open spec fn first_healthy(
    replicas: Seq<Seq<char>>,
    healthy: Set<Seq<char>>,
) -> Option<Seq<char>>
    decreases replicas.len(),
{
    if replicas.len() == 0 {
        None
    } else if healthy.contains(replicas[0]) {
        Some(replicas[0])
    } else {
        first_healthy(replicas.drop_first(), healthy)
    }
}

/// Who should lead: the preferred node if it can, else the current leader if it can, else the
/// first healthy replica.
pub open spec fn leader_of(
    preferred: Option<Seq<char>>,
    replicas: Seq<Seq<char>>,
    healthy: Set<Seq<char>>,
    current: Option<Seq<char>>,
) -> Option<Seq<char>> {
    if preferred is Some && can_lead(preferred->0, replicas, healthy) {
        preferred
    } else if current is Some && can_lead(current->0, replicas, healthy) {
        current
    } else {
        first_healthy(replicas, healthy)
    }
}

fn meets(wish: &Option<String>, actual: &str) -> (r: bool)
    ensures
        r == wish_met(wish.deep_view(), actual@),
{
    match wish {
        Some(w) => w.as_str().eq_ignore_ascii_case(actual),
        None => false,
    }
}

fn is_current(current: Option<&NodeId>, id: &str) -> (r: bool)
    ensures
        r == (current.deep_view() == Some(id@)),
{
    match current {
        Some(c) => text_eq(c.as_str(), id),
        None => false,
    }
}

fn slot_better(
    a: &LeaderSlot,
    b: &LeaderSlot,
    policy: Option<&PlacementPolicy>,
    current: Option<&NodeId>,
) -> (r: bool)
    ensures
        r == better_leader(a.deep_view(), b.deep_view(), policy.deep_view(), current.deep_view()),
{
    let (a_region, b_region, a_cloud, b_cloud) = match policy {
        Some(p) => (
            meets(&p.home_region, a.region.as_str()),
            meets(&p.home_region, b.region.as_str()),
            meets(&p.preferred_cloud_provider, a.cloud_provider.as_str()),
            meets(&p.preferred_cloud_provider, b.cloud_provider.as_str()),
        ),
        None => (false, false, false, false),
    };
    let a_current: bool = is_current(current, a.node_id.as_str());
    let b_current: bool = is_current(current, b.node_id.as_str());
    if a_region != b_region {
        a_region
    } else if a_cloud != b_cloud {
        a_cloud
    } else if a.leader_load != b.leader_load {
        a.leader_load < b.leader_load
    } else if a_current != b_current {
        a_current
    } else {
        text_before(a.node_id.as_str(), b.node_id.as_str())
    }
}

fn is_able(id: &str, replicas: &[NodeId], healthy: &IdSet) -> (r: bool)
    ensures
        r == can_lead(id@, replicas.deep_view(), healthy@),
{
    healthy.contains(id) && texts_contain(replicas, id)
}

/// Picks the preferred leader for a shard.
///
/// Region affinity wins first, provider affinity second, then the least loaded candidate. Ties go
/// to the currently observed leader, so that a restart adopts the existing leader instead of
/// transferring leadership, and finally to the lowest node id.
pub fn preferred_leader_for_policy(
    policy: Option<&PlacementPolicy>,
    replicas: &[NodeId],
    healthy: &IdSet,
    slots: &[LeaderSlot],
    current: Option<&NodeId>,
) -> (r: Option<NodeId>)
    ensures
        r.deep_view() == best_leader_id(
            slots.deep_view(),
            replicas.deep_view(),
            healthy@,
            policy.deep_view(),
            current.deep_view(),
        ),
        right_leader(
            r.deep_view(),
            slots.deep_view(),
            replicas.deep_view(),
            healthy@,
            policy.deep_view(),
            current.deep_view(),
        ),
{
    let ghost model = slots.deep_view();
    proof {
        policy_leader_is_right(
            model,
            replicas.deep_view(),
            healthy@,
            policy.deep_view(),
            current.deep_view(),
        );
    }
    let mut best: Option<usize> = None;
    let mut i: usize = 0;
    while i < slots.len()
        invariant
            i <= slots.len(),
            model == slots.deep_view(),
            match best {
                Some(b) => b < i && best_leader(
                    model.take(i as int),
                    replicas.deep_view(),
                    healthy@,
                    policy.deep_view(),
                    current.deep_view(),
                ) == Some(model[b as int]),
                None => best_leader(
                    model.take(i as int),
                    replicas.deep_view(),
                    healthy@,
                    policy.deep_view(),
                    current.deep_view(),
                ) is None,
            },
        decreases slots.len() - i,
    {
        assert(model.take(i + 1).drop_last() =~= model.take(i as int));
        if is_able(slots[i].node_id.as_str(), replicas, healthy) {
            best = match best {
                None => Some(i),
                Some(b) => if slot_better(&slots[i], &slots[b], policy, current) {
                    Some(i)
                } else {
                    Some(b)
                },
            };
        }
        i += 1;
    }
    assert(model.take(model.len() as int) =~= model);
    match best {
        Some(b) => Some(slots[b].node_id.clone()),
        None => None,
    }
}

/// Decides who should lead a shard.
///
/// 1. Affinity: if the preferred node is a healthy replica, it leads. This is what pulls
///    leadership back once it recovers.
/// 2. Stickiness: otherwise the current leader stays if it is still a healthy replica.
/// 3. Failover: otherwise the first healthy replica.
/// 4. Nobody if no replica is healthy.
pub fn desired_leader(
    preferred: Option<&NodeId>,
    replicas: &[NodeId],
    healthy: &IdSet,
    current: Option<&NodeId>,
) -> (r: Option<NodeId>)
    ensures
        r.deep_view() == leader_of(
            preferred.deep_view(),
            replicas.deep_view(),
            healthy@,
            current.deep_view(),
        ),
        right_choice(
            r.deep_view(),
            preferred.deep_view(),
            replicas.deep_view(),
            healthy@,
            current.deep_view(),
        ),
{
    proof {
        leader_is_the_right_choice(
            preferred.deep_view(),
            replicas.deep_view(),
            healthy@,
            current.deep_view(),
        );
    }
    if let Some(p) = preferred {
        if is_able(p.as_str(), replicas, healthy) {
            return Some(p.clone());
        }
    }
    if let Some(c) = current {
        if is_able(c.as_str(), replicas, healthy) {
            return Some(c.clone());
        }
    }
    let ghost model = replicas.deep_view();
    let mut i: usize = 0;
    assert(model.skip(0) =~= model);
    while i < replicas.len()
        invariant
            i <= replicas.len(),
            model == replicas.deep_view(),
            first_healthy(model, healthy@) == first_healthy(model.skip(i as int), healthy@),
            leader_of(preferred.deep_view(), model, healthy@, current.deep_view()) == first_healthy(
                model,
                healthy@,
            ),
            right_choice(
                first_healthy(model, healthy@),
                preferred.deep_view(),
                model,
                healthy@,
                current.deep_view(),
            ),
        decreases replicas.len() - i,
    {
        assert(model.skip(i as int)[0] == model[i as int]);
        if healthy.contains(replicas[i].as_str()) {
            return Some(replicas[i].clone());
        }
        assert(model.skip(i as int).drop_first() =~= model.skip(i + 1));
        i += 1;
    }
    None
}

/// A picked leader is one of the slots and can lead; none is picked only if no slot can.
pub proof fn picked_leader_can_lead(
    slots: Seq<LeaderModel>,
    replicas: Seq<Seq<char>>,
    healthy: Set<Seq<char>>,
    policy: Option<PolicyModel>,
    current: Option<Seq<char>>,
)
    ensures
        best_leader(slots, replicas, healthy, policy, current) matches Some(s) ==> slots.contains(s)
            && can_lead(s.node_id, replicas, healthy),
        best_leader(slots, replicas, healthy, policy, current) is None ==> forall|i: int|
            0 <= i < slots.len() ==> !can_lead(
                (#[trigger] slots[i]).node_id,
                replicas,
                healthy,
            ),
    decreases slots.len(),
{
    if slots.len() > 0 {
        let rest = slots.drop_last();
        picked_leader_can_lead(rest, replicas, healthy, policy, current);
        if let Some(s) = best_leader(rest, replicas, healthy, policy, current) {
            let i = choose|i: int| 0 <= i < rest.len() && rest[i] == s;
            assert(slots[i] == s);
        }
        assert(slots[slots.len() - 1] == slots.last());
        assert forall|i: int| 0 <= i < slots.len() - 1 implies #[trigger] slots[i] == rest[i] by {}
    }
}

proof fn better_leader_not_transitive(
    a: LeaderModel,
    b: LeaderModel,
    c: LeaderModel,
    policy: Option<PolicyModel>,
    current: Option<Seq<char>>,
)
    requires
        !better_leader(b, a, policy, current),
        !better_leader(c, b, policy, current),
    ensures
        !better_leader(c, a, policy, current),
{
    text::text_lt_total(a.node_id, b.node_id);
    text::text_lt_total(b.node_id, c.node_id);
    text::text_lt_irreflexive(a.node_id);
    text::text_lt_irreflexive(b.node_id);
    text::text_lt_irreflexive(c.node_id);
    if text::text_lt(a.node_id, b.node_id) && text::text_lt(b.node_id, c.node_id) {
        text::text_lt_transitive(a.node_id, b.node_id, c.node_id);
    }
    if text::text_lt(c.node_id, a.node_id) && text::text_lt(a.node_id, c.node_id) {
        text::text_lt_transitive(c.node_id, a.node_id, c.node_id);
    }
}

/// No slot that can lead makes a better leader than the one that is picked.
pub proof fn picked_leader_is_best(
    slots: Seq<LeaderModel>,
    replicas: Seq<Seq<char>>,
    healthy: Set<Seq<char>>,
    policy: Option<PolicyModel>,
    current: Option<Seq<char>>,
    j: int,
)
    requires
        0 <= j < slots.len(),
        can_lead(slots[j].node_id, replicas, healthy),
    ensures
        best_leader(slots, replicas, healthy, policy, current) is Some,
        !better_leader(
            slots[j],
            best_leader(slots, replicas, healthy, policy, current)->0,
            policy,
            current,
        ),
    decreases slots.len(),
{
    text::text_lt_irreflexive(slots[j].node_id);
    let rest = slots.drop_last();
    let last = slots.last();
    if j < slots.len() - 1 {
        assert(rest[j] == slots[j]);
        picked_leader_is_best(rest, replicas, healthy, policy, current, j);
        let b = best_leader(rest, replicas, healthy, policy, current)->0;
        if can_lead(last.node_id, replicas, healthy) && better_leader(last, b, policy, current) {
            if text::text_lt(last.node_id, b.node_id) && text::text_lt(b.node_id, last.node_id) {
                text::text_lt_transitive(last.node_id, b.node_id, last.node_id);
                text::text_lt_irreflexive(last.node_id);
            }
            better_leader_not_transitive(last, b, slots[j], policy, current);
        }
    }
}

/// A leader always holds a replica and is healthy.
pub proof fn leaders_can_lead(
    preferred: Option<Seq<char>>,
    replicas: Seq<Seq<char>>,
    healthy: Set<Seq<char>>,
    current: Option<Seq<char>>,
)
    ensures
        leader_of(preferred, replicas, healthy, current) matches Some(l) ==> can_lead(
            l,
            replicas,
            healthy,
        ),
        leader_of(preferred, replicas, healthy, current) is None ==> forall|i: int|
            0 <= i < replicas.len() ==> !healthy.contains(#[trigger] replicas[i]),
{
    first_healthy_is_replica(replicas, healthy);
}

proof fn first_healthy_is_replica(replicas: Seq<Seq<char>>, healthy: Set<Seq<char>>)
    ensures
        first_healthy(replicas, healthy) matches Some(l) ==> can_lead(l, replicas, healthy),
        first_healthy(replicas, healthy) is None ==> forall|i: int|
            0 <= i < replicas.len() ==> !healthy.contains(#[trigger] replicas[i]),
    decreases replicas.len(),
{
    if replicas.len() > 0 {
        let rest = replicas.drop_first();
        first_healthy_is_replica(rest, healthy);
        if healthy.contains(replicas[0]) {
            assert(replicas.contains(replicas[0]));
        } else {
            if let Some(l) = first_healthy(rest, healthy) {
                let i = choose|i: int| 0 <= i < rest.len() && rest[i] == l;
                assert(replicas[i + 1] == l);
            }
            assert forall|i: int|
                0 <= i < replicas.len() && first_healthy(
                    replicas,
                    healthy,
                ) is None implies !healthy.contains(#[trigger] replicas[i]) by {
                if i > 0 {
                    assert(rest[i - 1] == replicas[i]);
                }
            }
        }
    }
}

/// Leadership returns: once the preferred node is a healthy replica again, it should lead,
/// whoever leads now.
pub proof fn leadership_returns_to_preferred(
    preferred: Seq<char>,
    replicas: Seq<Seq<char>>,
    healthy: Set<Seq<char>>,
    current: Option<Seq<char>>,
)
    requires
        can_lead(preferred, replicas, healthy),
    ensures
        leader_of(Some(preferred), replicas, healthy, current) == Some(preferred),
{
}


/// Whether a slot's region is the one the policy asks for, ASCII case aside.
pub open spec fn at_home(policy: Option<PolicyModel>, s: LeaderModel) -> bool {
    policy matches Some(p) && p.home_region matches Some(w) && text::lowered(w) == text::lowered(
        s.region,
    )
}

/// Whether a slot's cloud is the one the policy asks for, ASCII case aside.
pub open spec fn in_cloud(policy: Option<PolicyModel>, s: LeaderModel) -> bool {
    policy matches Some(p) && p.preferred_cloud_provider matches Some(w) && text::lowered(w)
        == text::lowered(s.cloud_provider)
}

/// Whether slot `k` is the right one to pick: it holds a replica and is healthy, and of all slots
/// of which that is true, none is in the home region unless it is, none of the same standing there
/// is in the preferred cloud unless it is, none of the same standing in both leads fewer shards,
/// none that leads as few is the current leader unless it is, and none that is like it in all of
/// this has a lower id.
pub open spec fn is_right_pick(
    slots: Seq<LeaderModel>,
    replicas: Seq<Seq<char>>,
    healthy: Set<Seq<char>>,
    policy: Option<PolicyModel>,
    current: Option<Seq<char>>,
    k: int,
) -> bool {
    let p = slots[k];
    &&& 0 <= k < slots.len()
    &&& replicas.contains(p.node_id) && healthy.contains(p.node_id)
    &&& forall|j: int|
        0 <= j < slots.len() && replicas.contains((#[trigger] slots[j]).node_id)
            && healthy.contains(slots[j].node_id) ==> {
            let c = slots[j];
            let home = at_home(policy, p) == at_home(policy, c);
            let cloud = home && in_cloud(policy, p) == in_cloud(policy, c);
            let load = cloud && p.leader_load == c.leader_load;
            &&& at_home(policy, c) ==> at_home(policy, p)
            &&& home && in_cloud(policy, c) ==> in_cloud(policy, p)
            &&& cloud ==> p.leader_load <= c.leader_load
            &&& load && current == Some(c.node_id) ==> current == Some(p.node_id)
            &&& load && ((current == Some(p.node_id)) == (current == Some(c.node_id))) ==> {
                ||| p.node_id == c.node_id
                ||| text::text_lt(p.node_id, c.node_id)
            }
        }
}

/// Whether an answer is the right leader for a policy: the id of a right pick, or none where no
/// slot both holds a replica and is healthy.
pub open spec fn right_leader(
    answer: Option<Seq<char>>,
    slots: Seq<LeaderModel>,
    replicas: Seq<Seq<char>>,
    healthy: Set<Seq<char>>,
    policy: Option<PolicyModel>,
    current: Option<Seq<char>>,
) -> bool {
    match answer {
        Some(id) => exists|k: int|
            #![trigger slots[k]]
            is_right_pick(slots, replicas, healthy, policy, current, k) && slots[k].node_id == id,
        None => forall|j: int|
            0 <= j < slots.len() ==> !(replicas.contains((#[trigger] slots[j]).node_id)
                && healthy.contains(slots[j].node_id)),
    }
}

/// The leader for a policy is the right one: the wish for a region comes first, the wish for a
/// cloud second, then the fewest shards led, then who leads now, then the lowest id.
pub proof fn policy_leader_is_right(
    slots: Seq<LeaderModel>,
    replicas: Seq<Seq<char>>,
    healthy: Set<Seq<char>>,
    policy: Option<PolicyModel>,
    current: Option<Seq<char>>,
)
    ensures
        right_leader(
            best_leader_id(slots, replicas, healthy, policy, current),
            slots,
            replicas,
            healthy,
            policy,
            current,
        ),
{
    picked_leader_can_lead(slots, replicas, healthy, policy, current);
    if let Some(p) = best_leader(slots, replicas, healthy, policy, current) {
        let k = choose|k: int| 0 <= k < slots.len() && slots[k] == p;
        assert forall|j: int|
            0 <= j < slots.len() && replicas.contains((#[trigger] slots[j]).node_id)
                && healthy.contains(slots[j].node_id) implies {
            let c = slots[j];
            let home = at_home(policy, p) == at_home(policy, c);
            let cloud = home && in_cloud(policy, p) == in_cloud(policy, c);
            let load = cloud && p.leader_load == c.leader_load;
            &&& at_home(policy, c) ==> at_home(policy, p)
            &&& home && in_cloud(policy, c) ==> in_cloud(policy, p)
            &&& cloud ==> p.leader_load <= c.leader_load
            &&& load && current == Some(c.node_id) ==> current == Some(p.node_id)
            &&& load && ((current == Some(p.node_id)) == (current == Some(c.node_id))) ==> {
                ||| p.node_id == c.node_id
                ||| text::text_lt(p.node_id, c.node_id)
            }
        } by {
            picked_leader_is_best(slots, replicas, healthy, policy, current, j);
            text::text_lt_total(p.node_id, slots[j].node_id);
        }
        assert(is_right_pick(slots, replicas, healthy, policy, current, k));
        assert(slots[k].node_id == p.node_id);
    }
}

/// A wish that can be met is met: where some replica that can lead is in the home region, so is the
/// leader; and where none is, but some is in the preferred cloud, the leader is in that cloud.
pub proof fn wishes_that_can_be_met_are_met(
    slots: Seq<LeaderModel>,
    replicas: Seq<Seq<char>>,
    healthy: Set<Seq<char>>,
    policy: PolicyModel,
    current: Option<Seq<char>>,
    j: int,
)
    requires
        0 <= j < slots.len(),
        replicas.contains(slots[j].node_id),
        healthy.contains(slots[j].node_id),
    ensures
        policy.home_region matches Some(w) && text::lowered(w) == text::lowered(slots[j].region)
            ==> exists|k: int|
            0 <= k < slots.len() && best_leader_id(slots, replicas, healthy, Some(policy), current)
                == Some((#[trigger] slots[k]).node_id) && text::lowered(slots[k].region)
                == text::lowered(slots[j].region),
        (policy.preferred_cloud_provider matches Some(w) && text::lowered(w) == text::lowered(
            slots[j].cloud_provider,
        ) && forall|i: int|
            0 <= i < slots.len() && replicas.contains((#[trigger] slots[i]).node_id)
                && healthy.contains(slots[i].node_id) ==> !at_home(Some(policy), slots[i]))
            ==> exists|k: int|
            0 <= k < slots.len() && best_leader_id(slots, replicas, healthy, Some(policy), current)
                == Some((#[trigger] slots[k]).node_id) && in_cloud(Some(policy), slots[k]),
{
    policy_leader_is_right(slots, replicas, healthy, Some(policy), current);
    picked_leader_is_best(slots, replicas, healthy, Some(policy), current, j);
    let id = best_leader_id(slots, replicas, healthy, Some(policy), current)->0;
    let k = choose|k: int|
        #![trigger slots[k]]
        is_right_pick(slots, replicas, healthy, Some(policy), current, k) && slots[k].node_id == id;
    assert(slots[k].node_id == id);
}

/// Who should lead, in order: the preferred node, the current leader, the first healthy replica;
/// each only where it holds a replica and is healthy.
pub open spec fn right_choice(
    answer: Option<Seq<char>>,
    preferred: Option<Seq<char>>,
    replicas: Seq<Seq<char>>,
    healthy: Set<Seq<char>>,
    current: Option<Seq<char>>,
) -> bool {
    let able = |id: Option<Seq<char>>|
        id matches Some(x) && replicas.contains(x) && healthy.contains(x);
    &&& able(preferred) ==> answer == preferred
    &&& !able(preferred) && able(current) ==> answer == current
    &&& !able(preferred) && !able(current) ==> match answer {
        Some(x) => exists|i: int|
            #![trigger replicas[i]]
            0 <= i < replicas.len() && replicas[i] == x && healthy.contains(x) && forall|j: int|
                0 <= j < i ==> !healthy.contains(#[trigger] replicas[j]),
        None => forall|j: int| 0 <= j < replicas.len() ==> !healthy.contains(#[trigger] replicas[j]),
    }
}

proof fn first_healthy_is_first(replicas: Seq<Seq<char>>, healthy: Set<Seq<char>>)
    ensures
        first_healthy(replicas, healthy) matches Some(x) ==> exists|i: int|
            #![trigger replicas[i]]
            0 <= i < replicas.len() && replicas[i] == x && healthy.contains(x) && forall|j: int|
                0 <= j < i ==> !healthy.contains(#[trigger] replicas[j]),
    decreases replicas.len(),
{
    if replicas.len() > 0 && !healthy.contains(replicas[0]) {
        let rest = replicas.drop_first();
        first_healthy_is_first(rest, healthy);
        if let Some(x) = first_healthy(rest, healthy) {
            let i = choose|i: int|
                #![trigger rest[i]]
                0 <= i < rest.len() && rest[i] == x && healthy.contains(x) && forall|j: int|
                    0 <= j < i ==> !healthy.contains(#[trigger] rest[j]);
            assert(replicas[i + 1] == x);
            assert forall|j: int| 0 <= j < i + 1 implies !healthy.contains(#[trigger] replicas[j]) by {
                if j > 0 {
                    assert(rest[j - 1] == replicas[j]);
                }
            }
        }
    } else if replicas.len() > 0 {
        assert(replicas[0] == first_healthy(replicas, healthy)->0);
    }
}

/// The leader is the right choice.
pub proof fn leader_is_the_right_choice(
    preferred: Option<Seq<char>>,
    replicas: Seq<Seq<char>>,
    healthy: Set<Seq<char>>,
    current: Option<Seq<char>>,
)
    ensures
        right_choice(
            leader_of(preferred, replicas, healthy, current),
            preferred,
            replicas,
            healthy,
            current,
        ),
{
    first_healthy_is_first(replicas, healthy);
    first_healthy_is_replica(replicas, healthy);
}

} // verus!
