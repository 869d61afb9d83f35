//! The shard placement map: which nodes hold each shard, and who should lead it.

use crate::model::{AssignmentModel, PlacementPolicy, PolicyModel, ShardAssignment, ShardId};
use crate::shards::ShardMap;
use vstd::prelude::*;

verus! {

/// The value of a [`Placement`].
#[verifier::ext_equal]
pub struct PlacementModel {
    pub shard_count: u32,
    pub generation: u64,
    pub assignments: Map<ShardId, AssignmentModel>,
    pub policies: Map<ShardId, PolicyModel>,
}

/// The version after this one. It starts over behind the largest number.
pub open spec fn next_generation(g: u64) -> u64 {
    if g == u64::MAX {
        0
    } else {
        (g + 1) as u64
    }
}

/// The assignments of a list by shard; a later one of the same shard counts.
pub open spec fn assignments_of(list: Seq<AssignmentModel>) -> Map<ShardId, AssignmentModel>
    decreases list.len(),
{
    if list.len() == 0 {
        Map::empty()
    } else {
        assignments_of(list.drop_last()).insert(list.last().shard_id, list.last())
    }
}

impl PlacementModel {
    /// Nothing placed yet.
    pub open spec fn empty(shard_count: u32) -> PlacementModel {
        PlacementModel {
            shard_count,
            generation: 0,
            assignments: Map::empty(),
            policies: Map::empty(),
        }
    }

    /// A shard is assigned, and the version moves on.
    pub open spec fn assigned(self, a: AssignmentModel) -> PlacementModel {
        PlacementModel {
            assignments: self.assignments.insert(a.shard_id, a),
            generation: next_generation(self.generation),
            ..self
        }
    }

    /// The whole map is replaced, and the version moves on.
    pub open spec fn restored(self, list: Seq<AssignmentModel>) -> PlacementModel {
        PlacementModel {
            assignments: assignments_of(list),
            generation: next_generation(self.generation),
            ..self
        }
    }

    /// A policy is set.
    pub open spec fn with_policy(self, p: PolicyModel) -> PlacementModel {
        PlacementModel { policies: self.policies.insert(p.shard_id, p), ..self }
    }
}

/// Whether `list` is the listing of `assignments`: every one once, in ascending order of shard.
pub open spec fn lists_assignments(
    assignments: Map<ShardId, AssignmentModel>,
    list: Seq<AssignmentModel>,
) -> bool {
    &&& forall|i: int|
        0 <= i < list.len() ==> assignments.dom().contains((#[trigger] list[i]).shard_id)
            && assignments[list[i].shard_id] == list[i]
    &&& forall|k: ShardId| #[trigger]
        assignments.dom().contains(k) ==> exists|i: int|
            0 <= i < list.len() && (#[trigger] list[i]).shard_id == k
    &&& forall|i: int, j: int|
        0 <= i < j < list.len() ==> (#[trigger] list[i]).shard_id < (#[trigger] list[j]).shard_id
}

/// The listing of a placement map.
pub open spec fn assignment_listing(assignments: Map<ShardId, AssignmentModel>) -> Seq<
    AssignmentModel,
> {
    choose|list: Seq<AssignmentModel>| lists_assignments(assignments, list)
}

/// A placement map has one listing.
pub proof fn assignment_listing_is_unique(
    assignments: Map<ShardId, AssignmentModel>,
    a: Seq<AssignmentModel>,
    b: Seq<AssignmentModel>,
)
    requires
        lists_assignments(assignments, a),
        lists_assignments(assignments, b),
    ensures
        a == b,
{
    assignment_listings_agree(assignments, a, b, a.len() as int);
    if a.len() < b.len() {
        let x = b[a.len() as int];
        assert(assignments.dom().contains(x.shard_id));
        let j = choose|j: int| 0 <= j < a.len() && (#[trigger] a[j]).shard_id == x.shard_id;
        assert(a[j] == b[j]);
    }
    assert(a =~= b);
}

proof fn assignment_listings_agree(
    assignments: Map<ShardId, AssignmentModel>,
    a: Seq<AssignmentModel>,
    b: Seq<AssignmentModel>,
    n: int,
)
    requires
        lists_assignments(assignments, a),
        lists_assignments(assignments, b),
        0 <= n <= a.len(),
    ensures
        n <= b.len(),
        forall|i: int| 0 <= i < n ==> a[i] == b[i],
    decreases n,
{
    if n > 0 {
        assignment_listings_agree(assignments, a, b, n - 1);
        let x = a[n - 1].shard_id;
        assert(assignments.dom().contains(x));
        let j = choose|j: int| 0 <= j < b.len() && (#[trigger] b[j]).shard_id == x;
        assert(b[j].shard_id == x);
        if j < n - 1 {
            assert(a[j] == b[j]);
            assert(a[j].shard_id < a[n - 1].shard_id);
        }
        if j > n - 1 {
            let y = b[n - 1].shard_id;
            assert(assignments.dom().contains(y));
            let k = choose|k: int| 0 <= k < a.len() && (#[trigger] a[k]).shard_id == y;
            assert(a[k].shard_id == y);
            assert(b[n - 1].shard_id < b[j].shard_id);
            if k < n - 1 {
                assert(a[k] == b[k]);
                assert(b[k].shard_id < b[n - 1].shard_id);
            }
        }
    }
}

/// Whether `list` is the listing of `policies`: every one once, in ascending order of shard.
pub open spec fn lists_policies(
    policies: Map<ShardId, PolicyModel>,
    list: Seq<PolicyModel>,
) -> bool {
    &&& forall|i: int|
        0 <= i < list.len() ==> policies.dom().contains((#[trigger] list[i]).shard_id)
            && policies[list[i].shard_id] == list[i]
    &&& forall|k: ShardId| #[trigger]
        policies.dom().contains(k) ==> exists|i: int|
            0 <= i < list.len() && (#[trigger] list[i]).shard_id == k
    &&& forall|i: int, j: int|
        0 <= i < j < list.len() ==> (#[trigger] list[i]).shard_id < (#[trigger] list[j]).shard_id
}

/// The cluster-wide map from shards to replicas and leaders.
pub struct Placement {
    shard_count: u32,
    generation: u64,
    assignments: ShardMap<ShardAssignment>,
    policies: ShardMap<PlacementPolicy>,
}

impl View for Placement {
    type V = PlacementModel;

    closed spec fn view(&self) -> PlacementModel {
        PlacementModel {
            shard_count: self.shard_count,
            generation: self.generation,
            assignments: self.assignments.deep_view(),
            policies: self.policies.deep_view(),
        }
    }
}

/// Whether every assignment is stored under its own shard.
spec fn assignments_keyed(m: Map<ShardId, ShardAssignment>) -> bool {
    forall|k: ShardId| #[trigger] m.dom().contains(k) ==> m[k].shard_id == k
}

/// Whether every policy is stored under its own shard.
spec fn policies_keyed(m: Map<ShardId, PlacementPolicy>) -> bool {
    forall|k: ShardId| #[trigger] m.dom().contains(k) ==> m[k].shard_id == k
}

fn generation_after(g: u64) -> (r: u64)
    ensures
        r == next_generation(g),
{
    if g == u64::MAX {
        0
    } else {
        g + 1
    }
}

impl Placement {
    #[verifier::type_invariant]
    spec fn keyed_by_shard(self) -> bool {
        assignments_keyed(self.assignments@) && policies_keyed(self.policies@)
    }

    /// Nothing placed yet.
    pub fn new(shard_count: u32) -> (r: Self)
        ensures
            r@ == PlacementModel::empty(shard_count),
    {
        let r = Placement {
            shard_count,
            generation: 0,
            assignments: ShardMap::new(),
            policies: ShardMap::new(),
        };
        assert(r@ =~= PlacementModel::empty(shard_count));
        r
    }

    /// The number of shards.
    pub fn shard_count(&self) -> (r: u32)
        ensures
            r == self@.shard_count,
    {
        self.shard_count
    }

    /// The version of the map.
    pub fn generation(&self) -> (r: u64)
        ensures
            r == self@.generation,
    {
        self.generation
    }

    /// The assignment of one shard, if it is placed.
    pub fn get(&self, shard: ShardId) -> (r: Option<ShardAssignment>)
        ensures
            match r {
                Some(a) => self@.assignments.dom().contains(shard) && a.deep_view()
                    == self@.assignments[shard],
                None => !self@.assignments.dom().contains(shard),
            },
    {
        match self.assignments.get(shard) {
            Some(a) => Some(a.clone()),
            None => None,
        }
    }

    /// The whole map, in ascending order of shard.
    pub fn snapshot(&self) -> (r: Vec<ShardAssignment>)
        ensures
            lists_assignments(self@.assignments, r.deep_view()),
            r.deep_view() == assignment_listing(self@.assignments),
    {
        proof {
            use_type_invariant(self);
        }
        let n: usize = self.assignments.len();
        let ghost keys = self.assignments.keys();
        let mut r: Vec<ShardAssignment> = Vec::new();
        let mut i: usize = 0;
        while i < n
            invariant
                i <= n,
                n == keys.len(),
                keys == self.assignments.keys(),
                assignments_keyed(self.assignments@),
                forall|k: int|
                    0 <= k < keys.len() ==> self.assignments@.dom().contains(#[trigger] keys[k]),
                forall|k: ShardId| self.assignments@.dom().contains(k) ==> keys.contains(k),
                forall|a: int, b: int|
                    0 <= a < b < keys.len() ==> #[trigger] keys[a] < #[trigger] keys[b],
                r.len() == i,
                forall|k: int|
                    0 <= k < i ==> (#[trigger] r@[k]).deep_view()
                        == self.assignments@[keys[k]].deep_view(),
            decreases n - i,
        {
            r.push(self.assignments.value_at(i).clone());
            i += 1;
        }
        proof {
            let list = r.deep_view();
            assert forall|k: int| 0 <= k < list.len() implies (#[trigger] list[k]).shard_id
                == keys[k] && self@.assignments.dom().contains(keys[k])
                && self@.assignments[keys[k]] == list[k] by {
                assert(self.assignments@.dom().contains(keys[k]));
                assert(list[k] == r@[k].deep_view());
            }
            assert forall|id: ShardId| #[trigger]
                self@.assignments.dom().contains(id) implies exists|k: int|
                0 <= k < list.len() && (#[trigger] list[k]).shard_id == id by {
                assert(self.assignments@.dom().contains(id));
                assert(keys.contains(id));
                let k = keys.index_of(id);
                assert(list[k].shard_id == id);
            }
            assert(lists_assignments(self@.assignments, list));
            assignment_listing_is_unique(
                self@.assignments,
                list,
                assignment_listing(self@.assignments),
            );
        }
        r
    }

    /// The placement policy of one shard, if an operator has set one.
    pub fn policy(&self, shard: ShardId) -> (r: Option<PlacementPolicy>)
        ensures
            match r {
                Some(p) => self@.policies.dom().contains(shard) && p.deep_view()
                    == self@.policies[shard],
                None => !self@.policies.dom().contains(shard),
            },
    {
        match self.policies.get(shard) {
            Some(p) => Some(p.clone()),
            None => None,
        }
    }

    /// All placement policies, in ascending order of shard.
    pub fn policies_snapshot(&self) -> (r: Vec<PlacementPolicy>)
        ensures
            lists_policies(self@.policies, r.deep_view()),
    {
        proof {
            use_type_invariant(self);
        }
        let n: usize = self.policies.len();
        let ghost keys = self.policies.keys();
        let mut r: Vec<PlacementPolicy> = Vec::new();
        let mut i: usize = 0;
        while i < n
            invariant
                i <= n,
                n == keys.len(),
                keys == self.policies.keys(),
                policies_keyed(self.policies@),
                forall|k: int|
                    0 <= k < keys.len() ==> self.policies@.dom().contains(#[trigger] keys[k]),
                forall|k: ShardId| self.policies@.dom().contains(k) ==> keys.contains(k),
                forall|a: int, b: int|
                    0 <= a < b < keys.len() ==> #[trigger] keys[a] < #[trigger] keys[b],
                r.len() == i,
                forall|k: int|
                    0 <= k < i ==> (#[trigger] r@[k]).deep_view()
                        == self.policies@[keys[k]].deep_view(),
            decreases n - i,
        {
            r.push(self.policies.value_at(i).clone());
            i += 1;
        }
        proof {
            let list = r.deep_view();
            assert forall|k: int| 0 <= k < list.len() implies (#[trigger] list[k]).shard_id
                == keys[k] && self@.policies.dom().contains(keys[k]) && self@.policies[keys[k]]
                == list[k] by {
                assert(self.policies@.dom().contains(keys[k]));
                assert(list[k] == r@[k].deep_view());
            }
            assert forall|id: ShardId| #[trigger]
                self@.policies.dom().contains(id) implies exists|k: int|
                0 <= k < list.len() && (#[trigger] list[k]).shard_id == id by {
                assert(self.policies@.dom().contains(id));
                assert(keys.contains(id));
                let k = keys.index_of(id);
                assert(list[k].shard_id == id);
            }
        }
        r
    }

    /// Sets or replaces the placement policy of the shard it names.
    pub fn set_policy(&mut self, policy: PlacementPolicy)
        ensures
            final(self)@ == old(self)@.with_policy(policy.deep_view()),
    {
        proof {
            use_type_invariant(&*self);
        }
        let mut policies: ShardMap<PlacementPolicy> = ShardMap::new();
        std::mem::swap(&mut policies, &mut self.policies);
        let ghost before = policies.deep_view();
        let ghost p = policy.deep_view();
        policies.insert(policy.shard_id, policy);
        assert(policies.deep_view() =~= before.insert(p.shard_id, p));
        self.policies = policies;
    }

    /// Installs an assignment for the shard it names.
    pub fn assign(&mut self, assignment: ShardAssignment)
        ensures
            final(self)@ == old(self)@.assigned(assignment.deep_view()),
    {
        proof {
            use_type_invariant(&*self);
        }
        let mut assignments: ShardMap<ShardAssignment> = ShardMap::new();
        std::mem::swap(&mut assignments, &mut self.assignments);
        let ghost before = assignments.deep_view();
        let ghost a = assignment.deep_view();
        assignments.insert(assignment.shard_id, assignment);
        assert(assignments.deep_view() =~= before.insert(a.shard_id, a));
        self.assignments = assignments;
        self.generation = generation_after(self.generation);
    }

    /// Replaces the whole map at once: what a snapshot says is authoritative, so any stale local
    /// entry is dropped.
    pub fn restore_from(&mut self, assignments: Vec<ShardAssignment>)
        ensures
            final(self)@ == old(self)@.restored(assignments.deep_view()),
    {
        proof {
            use_type_invariant(&*self);
        }
        let ghost list = assignments.deep_view();
        let mut map: ShardMap<ShardAssignment> = ShardMap::new();
        let mut i: usize = 0;
        assert(map.deep_view() =~= assignments_of(list.take(0)));
        while i < assignments.len()
            invariant
                i <= assignments.len(),
                list == assignments.deep_view(),
                assignments_keyed(map@),
                map.deep_view() == assignments_of(list.take(i as int)),
            decreases assignments.len() - i,
        {
            let a = assignments[i].clone();
            let ghost before = map.deep_view();
            let ghost m = a.deep_view();
            map.insert(a.shard_id, a);
            assert(map.deep_view() =~= before.insert(m.shard_id, m));
            assert(list.take(i + 1).drop_last() =~= list.take(i as int));
            assert(list.take(i + 1).last() == m);
            i += 1;
        }
        assert(list.take(list.len() as int) =~= list);
        self.assignments = map;
        self.generation = generation_after(self.generation);
    }
}


/// Assigning a shard changes that shard alone, to exactly what was assigned, and moves the version
/// on by one; it touches no policy.
pub proof fn assigning_changes_one_shard(p: PlacementModel, a: AssignmentModel, other: ShardId)
    ensures
        ({
            let q = p.assigned(a);
            &&& q.assignments.dom().contains(a.shard_id) && q.assignments[a.shard_id] == a
            &&& other != a.shard_id ==> {
                &&& q.assignments.dom().contains(other) == p.assignments.dom().contains(other)
                &&& p.assignments.dom().contains(other) ==> q.assignments[other]
                    == p.assignments[other]
            }
            &&& p.generation < u64::MAX ==> q.generation == p.generation + 1
            &&& q.generation != p.generation
            &&& q.policies == p.policies
            &&& q.shard_count == p.shard_count
        }),
{
}

/// Setting a policy changes that shard's policy alone, and neither an assignment nor the version.
pub proof fn policies_change_no_placement(p: PlacementModel, policy: PolicyModel, other: ShardId)
    ensures
        ({
            let q = p.with_policy(policy);
            &&& q.policies.dom().contains(policy.shard_id) && q.policies[policy.shard_id] == policy
            &&& other != policy.shard_id ==> {
                &&& q.policies.dom().contains(other) == p.policies.dom().contains(other)
                &&& p.policies.dom().contains(other) ==> q.policies[other] == p.policies[other]
            }
            &&& q.assignments == p.assignments
            &&& q.generation == p.generation
            &&& q.shard_count == p.shard_count
        }),
{
}

/// Restoring replaces every assignment by those of the list, the last where several are of one
/// shard, moves the version on, and keeps the policies.
pub proof fn restoring_replaces_everything(
    p: PlacementModel,
    list: Seq<AssignmentModel>,
    shard: ShardId,
)
    ensures
        ({
            let q = p.restored(list);
            &&& {
                ||| exists|i: int|
                    0 <= i < list.len() && (#[trigger] list[i]).shard_id == shard
                        && q.assignments.dom().contains(shard) && q.assignments[shard] == list[i]
                        && forall|j: int|
                        i < j < list.len() ==> (#[trigger] list[j]).shard_id != shard
                ||| !q.assignments.dom().contains(shard) && forall|j: int|
                    0 <= j < list.len() ==> (#[trigger] list[j]).shard_id != shard
            }
            &&& q.generation != p.generation
            &&& p.generation < u64::MAX ==> q.generation == p.generation + 1
            &&& q.policies == p.policies
            &&& q.shard_count == p.shard_count
        }),
    decreases list.len(),
{
    if list.len() > 0 {
        let rest = list.drop_last();
        let q = p.restored(list);
        let before = p.restored(rest);
        restoring_replaces_everything(p, rest, shard);
        if list[list.len() - 1].shard_id == shard {
            assert(q.assignments[shard] == list[list.len() - 1]);
        } else if before.assignments.dom().contains(shard) {
            let i = choose|i: int|
                0 <= i < rest.len() && (#[trigger] rest[i]).shard_id == shard
                    && before.assignments[shard] == rest[i] && forall|j: int|
                    i < j < rest.len() ==> (#[trigger] rest[j]).shard_id != shard;
            assert(list[i] == rest[i]);
            assert forall|j: int| i < j < list.len() implies (#[trigger] list[j]).shard_id != shard by {
                if j < rest.len() {
                    assert(rest[j] == list[j]);
                }
            }
        } else {
            assert forall|j: int| 0 <= j < list.len() implies (#[trigger] list[j]).shard_id
                != shard by {
                if j < rest.len() {
                    assert(rest[j] == list[j]);
                }
            }
        }
    }
}

} // verus!
